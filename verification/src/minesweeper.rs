//! The board: mine placement, per-cell open/flag state, and the solvability
//! oracle that replays the chain of deductions from the revealed cells.
//!
//! Cells are row-major indices; `x + y * width` identifies the square at
//! column `x`, row `y`.

use vstd::prelude::*;
use rand::seq::SliceRandom;
use rand::thread_rng;
use crate::cells;
use crate::hint::Hint;
use crate::solver::{admits, models, ResultState, Solver};

verus! {

broadcast use vstd::seq_lib::lemma_seq_contains_after_push;

/// The outcome of opening a square, when the game ends.
#[derive(Debug, Copy, Clone, Eq, PartialEq, Structural)]
pub enum GameState {
    Win,
    Lose,
}

/// What the player sees on one square: revealed with its adjacent-mine
/// count, or flagged.
#[derive(Debug, Copy, Clone)]
pub enum State {
    Revealed(usize),
    Flagged,
}

/// A board: dimensions, the mined cells, and the per-cell player state,
/// kept as an association list with unique keys.
#[derive(Debug, Clone)]
pub struct Minesweeper {
    pub width: usize,
    pub height: usize,
    pub bombs: Vec<usize>,
    pub states: Vec<(usize, State)>,
}

/// Whether cell `p` is one of the up-to-eight neighbours of `(x, y)` on a
/// `w` by `h` board.
pub open spec fn is_adj(w: int, h: int, x: int, y: int, p: int) -> bool {
    ||| (x >= 1 && y >= 1 && p == (x - 1) + (y - 1) * w)
    ||| (y >= 1 && p == x + (y - 1) * w)
    ||| (x + 1 < w && y >= 1 && p == (x + 1) + (y - 1) * w)
    ||| (x >= 1 && p == (x - 1) + y * w)
    ||| (x + 1 < w && p == (x + 1) + y * w)
    ||| (x >= 1 && y + 1 < h && p == (x - 1) + (y + 1) * w)
    ||| (y + 1 < h && p == x + (y + 1) * w)
    ||| (x + 1 < w && y + 1 < h && p == (x + 1) + (y + 1) * w)
}

/// The set of neighbours of `(x, y)`.
pub open spec fn neighbor_set(w: int, h: int, x: int, y: int) -> Set<usize> {
    Set::new(|p: usize| is_adj(w, h, x, y, p as int))
}

/// Whether the association list holds an entry for key `p`.
pub open spec fn has_key(s: Seq<(usize, State)>, p: usize) -> bool {
    exists|k: int| 0 <= k < s.len() && (#[trigger] s[k]).0 == p
}

/// Whether the association list maps `p` to a revealed square.
pub open spec fn revealed_at(s: Seq<(usize, State)>, p: usize) -> bool {
    exists|k: int| 0 <= k < s.len() && (#[trigger] s[k]).0 == p && s[k].1 is Revealed
}

/// Whether the association list maps `p` to a flag.
pub open spec fn flagged_at(s: Seq<(usize, State)>, p: usize) -> bool {
    exists|k: int| 0 <= k < s.len() && (#[trigger] s[k]).0 == p && s[k].1 is Flagged
}

/// How many entries of the association list are revealed squares.
pub open spec fn revealed_count(s: Seq<(usize, State)>) -> nat
    decreases s.len(),
{
    if s.len() == 0 {
        0
    } else {
        revealed_count(s.drop_last()) + if s.last().1 is Revealed {
            1nat
        } else {
            0nat
        }
    }
}

/// A cell id derived from in-bounds coordinates lies on the board.
pub proof fn lemma_cell_bound(w: int, h: int, cx: int, cy: int)
    by (nonlinear_arith)
    requires
        0 <= cx < w,
        0 <= cy < h,
    ensures
        0 <= cx + cy * w < w * h,
{
}

/// Every neighbour of an in-bounds cell lies on the board.
pub proof fn lemma_adj_bound(w: int, h: int, x: int, y: int, p: int)
    requires
        0 <= x < w,
        0 <= y < h,
        is_adj(w, h, x, y, p),
    ensures
        0 <= p < w * h,
{
    if x >= 1 && y >= 1 && p == (x - 1) + (y - 1) * w {
        lemma_cell_bound(w, h, x - 1, y - 1);
    } else if y >= 1 && p == x + (y - 1) * w {
        lemma_cell_bound(w, h, x, y - 1);
    } else if x + 1 < w && y >= 1 && p == (x + 1) + (y - 1) * w {
        lemma_cell_bound(w, h, x + 1, y - 1);
    } else if x >= 1 && p == (x - 1) + y * w {
        lemma_cell_bound(w, h, x - 1, y);
    } else if x + 1 < w && p == (x + 1) + y * w {
        lemma_cell_bound(w, h, x + 1, y);
    } else if x >= 1 && y + 1 < h && p == (x - 1) + (y + 1) * w {
        lemma_cell_bound(w, h, x - 1, y + 1);
    } else if y + 1 < h && p == x + (y + 1) * w {
        lemma_cell_bound(w, h, x, y + 1);
    } else {
        lemma_cell_bound(w, h, x + 1, y + 1);
    }
}

/// An on-board cell id decomposes into in-bounds coordinates.
pub proof fn lemma_cell_coords(w: int, h: int, p: int)
    requires
        0 < w,
        0 <= h,
        0 <= p < w * h,
    ensures
        0 <= p % w < w,
        0 <= p / w < h,
        p == (p % w) + (p / w) * w,
{
    vstd::arithmetic::div_mod::lemma_fundamental_div_mod(p, w);
    vstd::arithmetic::div_mod::lemma_mod_bound(p, w);
    vstd::arithmetic::div_mod::lemma_div_pos_is_pos(p, w);
    vstd::arithmetic::mul::lemma_mul_is_commutative(w, p / w);
    if p / w >= h {
        vstd::arithmetic::mul::lemma_mul_inequality(h, p / w, w);
        vstd::arithmetic::mul::lemma_mul_is_commutative(w, h);
        assert(false);
    }
}

/// A mine assignment consistent with what the reveals in `rs` show: none
/// of the revealed cells is mined, and each one's neighbourhood holds
/// exactly the number of mines its count reported.
pub open spec fn board_consistent(m: Minesweeper, rs: Set<usize>, f: Set<usize>) -> bool {
    forall|c: usize| #[trigger]
        rs.contains(c) ==> !f.contains(c) && neighbor_set(
            m.width as int,
            m.height as int,
            (c as int) % (m.width as int),
            (c as int) / (m.width as int),
        ).intersect(f).len() == m.adj_bombs(
            (c as int) % (m.width as int),
            (c as int) / (m.width as int),
        )
}

/// Cell `p` is provably mine-free from the reveals in `rs` alone: every
/// mine assignment consistent with them leaves `p` clear.
pub open spec fn deduced_safe(m: Minesweeper, rs: Set<usize>, p: usize) -> bool {
    forall|f: Set<usize>| #[trigger] board_consistent(m, rs, f) ==> !f.contains(p)
}

/// A chain of reveals without guessing: each cell is on the board and is
/// either revealed on the board already or forced by the cells before it.
pub open spec fn deduction_chain(m: Minesweeper, reached: Seq<usize>) -> bool {
    &&& reached.no_duplicates()
    &&& forall|k: int| 0 <= k < reached.len() ==> (#[trigger] reached[k]) < m.width * m.height
    &&& forall|k: int|
        0 <= k < reached.len() ==> revealed_at(m.states@, #[trigger] reached[k]) || deduced_safe(
            m,
            reached.take(k).to_set(),
            reached[k],
        )
}

/// Whether `e` is the key of a revealed entry among the first `n` states.
pub open spec fn seed_key(s: Seq<(usize, State)>, n: int, e: usize) -> bool {
    exists|k2: int| 0 <= k2 < n && e == (#[trigger] s[k2]).0 && s[k2].1 is Revealed
}

/// A key found among the first `n1` entries is found among the first `n2`.
pub proof fn lemma_seed_key_mono(s: Seq<(usize, State)>, n1: int, n2: int, e: usize)
    requires
        seed_key(s, n1, e),
        n1 <= n2,
    ensures
        seed_key(s, n2, e),
{
    let k2 = choose|k2: int| 0 <= k2 < n1 && e == (#[trigger] s[k2]).0 && s[k2].1 is Revealed;
    assert(0 <= k2 < n2 && e == s[k2].0);
}

/// Revealed squares that are what they claim: none of them is mined.
pub open spec fn honest_reveals(m: Minesweeper) -> bool {
    forall|p: usize| #[trigger] revealed_at(m.states@, p) ==> !m.bombs@.contains(p)
}

/// What is forced by fewer reveals stays forced by more.
pub proof fn lemma_deduced_safe_mono(m: Minesweeper, rs1: Set<usize>, rs2: Set<usize>, p: usize)
    requires
        deduced_safe(m, rs1, p),
        rs1.subset_of(rs2),
    ensures
        deduced_safe(m, rs2, p),
{
    assert forall|f: Set<usize>| #[trigger] board_consistent(m, rs2, f) implies !f.contains(
        p,
    ) by {
        assert(board_consistent(m, rs1, f));
    }
}

/// Relies on rand's `SliceRandom::shuffle`: it permutes the slice in place
/// by element swaps driven by the thread-local generator, so the slice
/// afterwards holds the same elements, whatever order the generator picked.
#[verifier::external_body]
fn shuffle_cells(v: &mut Vec<usize>)
    ensures
        final(v)@.to_multiset() == old(v)@.to_multiset(),
        final(v)@.len() == old(v)@.len(),
{
    v.shuffle(&mut thread_rng());
}

impl Minesweeper {
    /// Structural invariants: the cell count fits the machine, mines are
    /// distinct on-board cells, and the state list has unique on-board keys.
    pub open spec fn wf(&self) -> bool {
        &&& self.width * self.height <= usize::MAX
        &&& self.bombs@.no_duplicates()
        &&& forall|k: int| 0 <= k < self.bombs@.len() ==> (#[trigger] self.bombs@[k]) < self.width
            * self.height
        &&& forall|k1: int, k2: int|
            0 <= k1 < self.states@.len() && 0 <= k2 < self.states@.len() && k1 != k2
                ==> (#[trigger] self.states@[k1]).0 != (#[trigger] self.states@[k2]).0
        &&& forall|k: int| 0 <= k < self.states@.len() ==> (#[trigger] self.states@[k]).0
            < self.width * self.height
    }

    /// The number of mines adjacent to `(x, y)`.
    pub open spec fn adj_bombs(&self, x: int, y: int) -> nat {
        neighbor_set(self.width as int, self.height as int, x, y).intersect(
            self.bombs@.to_set(),
        ).len()
    }

    pub fn new(width: usize, height: usize, bombs: Vec<usize>) -> (r: Self)
        requires
            width * height <= usize::MAX,
            bombs@.no_duplicates(),
            forall|k: int| 0 <= k < bombs@.len() ==> (#[trigger] bombs@[k]) < width * height,
        ensures
            r.width == width,
            r.height == height,
            r.bombs == bombs,
            r.states@.len() == 0,
            r.wf(),
    {
        Self { width, height, bombs, states: Vec::new() }
    }

    /// A board with `bombs_num` mines drawn uniformly: shuffle all cells and
    /// keep the first `bombs_num` of them.
    pub fn new_random(width: usize, height: usize, bombs_num: usize) -> (r: Self)
        requires
            width * height <= usize::MAX,
            bombs_num <= width * height,
        ensures
            r.width == width,
            r.height == height,
            r.bombs@.len() == bombs_num,
            r.states@.len() == 0,
            r.wf(),
    {
        broadcast use vstd::seq_lib::group_to_multiset_ensures;

        let total = width * height;
        let mut squares: Vec<usize> = Vec::new();
        let mut i: usize = 0;
        while i < total
            invariant
                i <= total,
                squares@.len() == i,
                forall|k: int| 0 <= k < i ==> squares@[k] == k,
            decreases total - i,
        {
            squares.push(i);
            i += 1;
        }
        let ghost before = squares@;
        proof {
            assert(before.no_duplicates());
        }
        shuffle_cells(&mut squares);
        proof {
            before.lemma_multiset_has_no_duplicates();
            assert(forall|e: usize|
                squares@.to_multiset().contains(e) ==> squares@.to_multiset().count(e) == 1);
            squares@.lemma_multiset_has_no_duplicates_conv();
            assert forall|k: int| 0 <= k < squares@.len() implies (#[trigger] squares@[k])
                < total by {
                let e = squares@[k];
                assert(squares@.contains(e));
                assert(squares@.to_multiset().count(e) > 0);
                assert(before.contains(e));
            }
        }
        let mut bombs: Vec<usize> = Vec::new();
        let mut j: usize = 0;
        while j < bombs_num
            invariant
                j <= bombs_num,
                bombs_num <= squares@.len(),
                bombs@ == squares@.take(j as int),
                squares@.no_duplicates(),
                forall|k: int| 0 <= k < squares@.len() ==> (#[trigger] squares@[k]) < total,
            decreases bombs_num - j,
        {
            let s = squares[j];
            bombs.push(s);
            proof {
                assert(bombs@ =~= squares@.take(j + 1));
            }
            j += 1;
        }
        proof {
            assert(forall|k: int| 0 <= k < bombs@.len() ==> bombs@[k] == squares@[k]);
        }
        Self::new(width, height, bombs)
    }

    /// The row-major ids of the in-bounds neighbours of `(x, y)`, each once.
    fn get_around(&self, x: usize, y: usize) -> (r: Vec<usize>)
        requires
            self.wf(),
            x < self.width,
            y < self.height,
        ensures
            r@.no_duplicates(),
            r@.to_set() == neighbor_set(self.width as int, self.height as int, x as int, y as int),
            forall|k: int| 0 <= k < r@.len() ==> (#[trigger] r@[k]) < self.width * self.height,
    {
        let w = self.width;
        let h = self.height;
        let mut r: Vec<usize> = Vec::new();
        if x >= 1 && y >= 1 {
            proof {
                lemma_cell_bound(w as int, h as int, x - 1, y - 1);
            }
            cells::push_unique(&mut r, (x - 1) + (y - 1) * w);
        }
        if y >= 1 {
            proof {
                lemma_cell_bound(w as int, h as int, x as int, y - 1);
            }
            cells::push_unique(&mut r, x + (y - 1) * w);
        }
        if x + 1 < w && y >= 1 {
            proof {
                lemma_cell_bound(w as int, h as int, x + 1, y - 1);
            }
            cells::push_unique(&mut r, (x + 1) + (y - 1) * w);
        }
        if x >= 1 {
            proof {
                lemma_cell_bound(w as int, h as int, x - 1, y as int);
            }
            cells::push_unique(&mut r, (x - 1) + y * w);
        }
        if x + 1 < w {
            proof {
                lemma_cell_bound(w as int, h as int, x + 1, y as int);
            }
            cells::push_unique(&mut r, (x + 1) + y * w);
        }
        if x >= 1 && y + 1 < h {
            proof {
                lemma_cell_bound(w as int, h as int, x - 1, y + 1);
            }
            cells::push_unique(&mut r, (x - 1) + (y + 1) * w);
        }
        if y + 1 < h {
            proof {
                lemma_cell_bound(w as int, h as int, x as int, y + 1);
            }
            cells::push_unique(&mut r, x + (y + 1) * w);
        }
        if x + 1 < w && y + 1 < h {
            proof {
                lemma_cell_bound(w as int, h as int, x + 1, y + 1);
            }
            cells::push_unique(&mut r, (x + 1) + (y + 1) * w);
        }
        proof {
            assert forall|p: usize| r@.contains(p) implies is_adj(
                w as int,
                h as int,
                x as int,
                y as int,
                p as int,
            ) by {
                let k = choose|k: int| 0 <= k < r@.len() && r@[k] == p;
            }
            assert forall|p: usize| is_adj(w as int, h as int, x as int, y as int, p as int)
                implies r@.contains(p) by {}
            assert(r@.to_set() =~= neighbor_set(w as int, h as int, x as int, y as int));
            assert forall|k: int| 0 <= k < r@.len() implies (#[trigger] r@[k]) < w * h by {
                assert(r@.contains(r@[k]));
                lemma_adj_bound(w as int, h as int, x as int, y as int, r@[k] as int);
            }
        }
        r
    }

    /// How many of the neighbours of `(x, y)` are mined.
    fn get_bombs_around(&self, x: usize, y: usize) -> (r: usize)
        requires
            self.wf(),
            x < self.width,
            y < self.height,
        ensures
            r == self.adj_bombs(x as int, y as int),
            r <= neighbor_set(self.width as int, self.height as int, x as int, y as int).len(),
    {
        let around = self.get_around(x, y);
        let ghost nset = neighbor_set(
            self.width as int,
            self.height as int,
            x as int,
            y as int,
        );
        let ghost bset = self.bombs@.to_set();
        let mut cnt: usize = 0;
        let mut i: usize = 0;
        proof {
            assert(around@.take(0).to_set() =~= Set::<usize>::empty());
            assert(Set::<usize>::empty().intersect(bset) =~= Set::<usize>::empty());
            cells::lemma_unique_len(around@);
        }
        while i < around.len()
            invariant
                i <= around@.len(),
                cnt <= i,
                around@.no_duplicates(),
                cnt == around@.take(i as int).to_set().intersect(bset).len(),
                bset == self.bombs@.to_set(),
            decreases around@.len() - i,
        {
            let e = around[i];
            let ghost prefix = around@.take(i as int).to_set().intersect(bset);
            proof {
                assert(around@.take(i + 1) =~= around@.take(i as int).push(e));
                assert(forall|k: int| 0 <= k < i ==> around@[k] != e);
                assert(!around@.take(i as int).contains(e));
                cells::lemma_unique_len(around@.take(i as int));
                vstd::set_lib::lemma_len_intersect(around@.take(i as int).to_set(), bset);
                assert(prefix.finite());
            }
            if cells::vec_contains(&self.bombs, e) {
                proof {
                    assert(bset.contains(e));
                    assert(around@.take(i + 1).to_set().intersect(bset) =~= prefix.insert(e));
                    assert(!prefix.contains(e));
                }
                cnt += 1;
            } else {
                proof {
                    assert(!bset.contains(e));
                    assert(around@.take(i + 1).to_set().intersect(bset) =~= prefix);
                }
            }
            i += 1;
        }
        proof {
            assert(around@.take(around@.len() as int) =~= around@);
            assert(around@.to_set() =~= nset);
        }
        cnt
    }

    /// The index of the state entry for cell `p`, if any.
    fn find_index(&self, p: usize) -> (r: Option<usize>)
        ensures
            r matches Some(ix) ==> ix < self.states@.len() && self.states@[ix as int].0 == p,
            r is None <==> !has_key(self.states@, p),
    {
        let mut i: usize = 0;
        while i < self.states.len()
            invariant
                i <= self.states@.len(),
                forall|k: int| 0 <= k < i ==> (#[trigger] self.states@[k]).0 != p,
            decreases self.states@.len() - i,
        {
            if self.states[i].0 == p {
                return Some(i);
            }
            i += 1;
        }
        None
    }

    /// How many state entries are revealed squares.
    fn count_revealed(&self) -> (r: usize)
        ensures
            r == revealed_count(self.states@),
    {
        let mut cnt: usize = 0;
        let mut i: usize = 0;
        proof {
            assert(self.states@.take(0) =~= Seq::<(usize, State)>::empty());
        }
        while i < self.states.len()
            invariant
                i <= self.states@.len(),
                cnt <= i,
                cnt == revealed_count(self.states@.take(i as int)),
            decreases self.states@.len() - i,
        {
            proof {
                assert(self.states@.take(i + 1).drop_last() =~= self.states@.take(i as int));
                assert(self.states@.take(i + 1).last() == self.states@[i as int]);
            }
            if matches!(self.states[i].1, State::Revealed(_)) {
                cnt += 1;
            }
            i += 1;
        }
        proof {
            assert(self.states@.take(self.states@.len() as int) =~= self.states@);
        }
        cnt
    }

    /// Opens `(x, y)`: a mine loses at once; otherwise the square is
    /// revealed with its adjacent-mine count, and the game is won when all
    /// mine-free squares are revealed.
    pub fn open(&mut self, x: usize, y: usize) -> (r: Option<GameState>)
        requires
            old(self).wf(),
            x < old(self).width,
            y < old(self).height,
        ensures
            final(self).wf(),
            final(self).width == old(self).width,
            final(self).height == old(self).height,
            final(self).bombs == old(self).bombs,
            ({
                let p = (x + y * old(self).width) as usize;
                &&& old(self).bombs@.contains(p) ==> r == Some(GameState::Lose) && *final(self)
                    == *old(self)
                &&& !old(self).bombs@.contains(p) ==> ({
                    &&& has_key(old(self).states@, p) ==> final(self).states == old(self).states
                    &&& !has_key(old(self).states@, p) ==> final(self).states@ == old(
                        self,
                    ).states@.push(
                        (p, State::Revealed(old(self).adj_bombs(x as int, y as int) as usize)),
                    )
                    &&& r == (if revealed_count(final(self).states@) + old(self).bombs@.len()
                        == old(self).width * old(self).height {
                        Some(GameState::Win)
                    } else {
                        None::<GameState>
                    })
                })
            }),
    {
        proof {
            lemma_cell_bound(self.width as int, self.height as int, x as int, y as int);
        }
        let p = x + y * self.width;
        if cells::vec_contains(&self.bombs, p) {
            return Some(GameState::Lose);
        }
        if self.find_index(p).is_none() {
            let n = self.get_bombs_around(x, y);
            self.states.push((p, State::Revealed(n)));
        }
        let total = self.width * self.height;
        proof {
            let keys = self.bombs@;
            cells::lemma_bounded_unique_len(keys, total);
        }
        if self.count_revealed() == total - self.bombs.len() {
            return Some(GameState::Win);
        }
        None
    }

    /// Toggles the flag on `(x, y)`: plants one on an untouched square,
    /// removes an existing one, and leaves a revealed square alone.
    pub fn toggle_flag(&mut self, x: usize, y: usize)
        requires
            old(self).wf(),
            x < old(self).width,
            y < old(self).height,
        ensures
            final(self).wf(),
            final(self).width == old(self).width,
            final(self).height == old(self).height,
            final(self).bombs == old(self).bombs,
            ({
                let p = (x + y * old(self).width) as usize;
                &&& !has_key(old(self).states@, p) ==> final(self).states@ == old(
                    self,
                ).states@.push((p, State::Flagged))
                &&& revealed_at(old(self).states@, p) ==> *final(self) == *old(self)
                &&& flagged_at(old(self).states@, p) ==> !has_key(final(self).states@, p)
                    && forall|e: (usize, State)|
                    e.0 != p ==> (final(self).states@.contains(e) <==> old(
                        self,
                    ).states@.contains(e))
            }),
    {
        proof {
            lemma_cell_bound(self.width as int, self.height as int, x as int, y as int);
        }
        let p = x + y * self.width;
        match self.find_index(p) {
            Some(ix) => {
                if matches!(self.states[ix].1, State::Flagged) {
                    let ghost before = self.states@;
                    self.states.remove(ix);
                    proof {
                        assert(self.states@ == before.remove(ix as int));
                        assert(forall|k: int|
                            0 <= k < ix ==> self.states@[k] == #[trigger] before[k]);
                        assert(forall|k: int|
                            ix <= k < self.states@.len()
                                ==> #[trigger] self.states@[k] == before[k + 1]);
                        assert forall|e: (usize, State)| e.0 != p implies (
                        self.states@.contains(e) <==> before.contains(e)) by {
                            if self.states@.contains(e) {
                                let k = choose|k: int|
                                    0 <= k < self.states@.len() && self.states@[k] == e;
                                if k < ix {
                                    assert(before[k] == e);
                                } else {
                                    assert(before[k + 1] == e);
                                }
                            }
                            if before.contains(e) {
                                let k = choose|k: int| 0 <= k < before.len() && before[k] == e;
                                if k < ix {
                                    assert(self.states@[k] == e);
                                } else if k > ix {
                                    assert(self.states@[k - 1] == e);
                                }
                            }
                        }
                        assert forall|k: int| 0 <= k < self.states@.len() implies (
                        #[trigger] self.states@[k]).0 != p by {
                            if k < ix {
                                assert(self.states@[k] == before[k]);
                                assert(before[ix as int].0 == p);
                            } else {
                                assert(self.states@[k] == before[k + 1]);
                                assert(before[ix as int].0 == p);
                            }
                        }
                    }
                } else {
                    proof {
                        assert(revealed_at(self.states@, p) || flagged_at(self.states@, p));
                        assert(!flagged_at(self.states@, p)) by {
                            if flagged_at(self.states@, p) {
                                let k = choose|k: int|
                                    0 <= k < self.states@.len() && (#[trigger] self.states@[k]).0
                                        == p && self.states@[k].1 is Flagged;
                                assert(k == ix);
                            }
                        }
                    }
                }
            },
            None => {
                self.states.push((p, State::Flagged));
            },
        }
    }

    /// The visible field: `None` for untouched squares, the stored state
    /// otherwise, row by row.
    pub fn field(&self) -> (r: Vec<Vec<Option<State>>>)
        requires
            self.wf(),
        ensures
            r@.len() == self.height,
            forall|yy: int| 0 <= yy < self.height ==> (#[trigger] r@[yy])@.len() == self.width,
            forall|yy: int, xx: int|
                0 <= yy < self.height && 0 <= xx < self.width ==> ({
                    let p = (xx + yy * self.width) as usize;
                    &&& ((#[trigger] r@[yy]@[xx]) is Some <==> has_key(self.states@, p))
                    &&& forall|st: State|
                        r@[yy]@[xx] == Some(st) ==> exists|k: int|
                            0 <= k < self.states@.len() && #[trigger] self.states@[k] == (p, st)
                }),
    {
        let mut r: Vec<Vec<Option<State>>> = Vec::new();
        let mut yy: usize = 0;
        while yy < self.height
            invariant
                self.wf(),
                yy <= self.height,
                r@.len() == yy,
                forall|y2: int| 0 <= y2 < yy ==> (#[trigger] r@[y2])@.len() == self.width,
                forall|y2: int, xx: int|
                    0 <= y2 < yy && 0 <= xx < self.width ==> ({
                        let p = (xx + y2 * self.width) as usize;
                        &&& ((#[trigger] r@[y2]@[xx]) is Some <==> has_key(self.states@, p))
                        &&& forall|st: State|
                            r@[y2]@[xx] == Some(st) ==> exists|k: int|
                                0 <= k < self.states@.len() && #[trigger] self.states@[k] == (
                                p,
                                st,
                                )
                    }),
            decreases self.height - yy,
        {
            let mut row: Vec<Option<State>> = Vec::new();
            let mut xx: usize = 0;
            while xx < self.width
                invariant
                    self.wf(),
                    yy < self.height,
                    xx <= self.width,
                    row@.len() == xx,
                    forall|x2: int|
                        0 <= x2 < xx ==> ({
                            let p = (x2 + yy * self.width) as usize;
                            &&& ((#[trigger] row@[x2]) is Some <==> has_key(self.states@, p))
                            &&& forall|st: State|
                                row@[x2] == Some(st) ==> exists|k: int|
                                    0 <= k < self.states@.len() && #[trigger] self.states@[k]
                                        == (p, st)
                        }),
                decreases self.width - xx,
            {
                proof {
                    lemma_cell_bound(
                        self.width as int,
                        self.height as int,
                        xx as int,
                        yy as int,
                    );
                }
                let p = xx + yy * self.width;
                match self.find_index(p) {
                    Some(ix) => {
                        let st = self.states[ix].1;
                        proof {
                            assert(self.states@[ix as int] == (p, st));
                        }
                        row.push(Some(st));
                    },
                    None => {
                        row.push(None);
                    },
                }
                xx += 1;
            }
            r.push(row);
            yy += 1;
        }
        r
    }

    /// The fully revealed board: a flag marks each mine, every other square
    /// shows its adjacent-mine count.
    pub fn all_reveal(&self) -> (r: Vec<Vec<State>>)
        requires
            self.wf(),
        ensures
            r@.len() == self.height,
            forall|yy: int| 0 <= yy < self.height ==> (#[trigger] r@[yy])@.len() == self.width,
            forall|yy: int, xx: int|
                0 <= yy < self.height && 0 <= xx < self.width ==> ({
                    let p = (xx + yy * self.width) as usize;
                    (#[trigger] r@[yy]@[xx]) == (if self.bombs@.contains(p) {
                        State::Flagged
                    } else {
                        State::Revealed(self.adj_bombs(xx, yy) as usize)
                    })
                }),
    {
        let mut r: Vec<Vec<State>> = Vec::new();
        let mut yy: usize = 0;
        while yy < self.height
            invariant
                self.wf(),
                yy <= self.height,
                r@.len() == yy,
                forall|y2: int| 0 <= y2 < yy ==> (#[trigger] r@[y2])@.len() == self.width,
                forall|y2: int, xx: int|
                    0 <= y2 < yy && 0 <= xx < self.width ==> ({
                        let p = (xx + y2 * self.width) as usize;
                        (#[trigger] r@[y2]@[xx]) == (if self.bombs@.contains(p) {
                            State::Flagged
                        } else {
                            State::Revealed(self.adj_bombs(xx, y2) as usize)
                        })
                    }),
            decreases self.height - yy,
        {
            let mut row: Vec<State> = Vec::new();
            let mut xx: usize = 0;
            while xx < self.width
                invariant
                    self.wf(),
                    yy < self.height,
                    xx <= self.width,
                    row@.len() == xx,
                    forall|x2: int|
                        0 <= x2 < xx ==> ({
                            let p = (x2 + yy * self.width) as usize;
                            (#[trigger] row@[x2]) == (if self.bombs@.contains(p) {
                                State::Flagged
                            } else {
                                State::Revealed(self.adj_bombs(x2, yy as int) as usize)
                            })
                        }),
                decreases self.width - xx,
            {
                proof {
                    lemma_cell_bound(
                        self.width as int,
                        self.height as int,
                        xx as int,
                        yy as int,
                    );
                }
                let p = xx + yy * self.width;
                if cells::vec_contains(&self.bombs, p) {
                    row.push(State::Flagged);
                } else {
                    let n = self.get_bombs_around(xx, yy);
                    row.push(State::Revealed(n));
                }
                xx += 1;
            }
            r.push(row);
            yy += 1;
        }
        r
    }

    /// The solvability oracle: replays the chain "reveal a square, learn
    /// its adjacency hint, collect the newly provable safe squares" from
    /// the currently revealed squares, and reports whether deduction alone
    /// reaches every mine-free square.
    pub fn is_solvable(&self) -> (r: bool)
        requires
            self.wf(),
        ensures
            r ==> exists|reached: Seq<usize>|
                #[trigger] deduction_chain(*self, reached) && reached.len() + self.bombs@.len()
                    == self.width * self.height,
            honest_reveals(*self) && revealed_count(self.states@) + self.bombs@.len()
                == self.width * self.height ==> r,
    {
        let total = self.width * self.height;
        let mut solver = Solver::default();
        let mut revealed: Vec<usize> = Vec::new();
        let mut opens: Vec<usize> = Vec::new();
        let mut i: usize = 0;
        proof {
            assert(self.states@.take(0) =~= Seq::<(usize, State)>::empty());
        }
        while i < self.states.len()
            invariant
                self.wf(),
                i <= self.states@.len(),
                total == self.width * self.height,
                solver.wf(),
                solver.hints@.len() == 0,
                opens@.len() == revealed_count(self.states@.take(i as int)),
                opens@.no_duplicates(),
                forall|k: int| 0 <= k < opens@.len() ==> (#[trigger] opens@[k]) < total,
                forall|k: int|
                    0 <= k < opens@.len() ==> seed_key(self.states@, i as int, #[trigger] opens@[k]),
                forall|k: int|
                    0 <= k < opens@.len() ==> revealed_at(self.states@, #[trigger] opens@[k]),
            decreases self.states@.len() - i,
        {
            proof {
                assert(self.states@.take(i + 1).drop_last() =~= self.states@.take(i as int));
                assert(self.states@.take(i + 1).last() == self.states@[i as int]);
            }
            if matches!(self.states[i].1, State::Revealed(_)) {
                let ghost opens_pre = opens@;
                opens.push(self.states[i].0);
                proof {
                    assert(self.states@[i as int].1 is Revealed);
                    assert(revealed_at(self.states@, self.states@[i as int].0));
                    assert forall|k: int|
                        0 <= k < opens@.len() implies seed_key(
                        self.states@,
                        i + 1,
                        #[trigger] opens@[k],
                    ) by {
                        if k < opens@.len() - 1 {
                            assert(opens@[k] == opens_pre[k]);
                            lemma_seed_key_mono(self.states@, i as int, i + 1, opens@[k]);
                        } else {
                            assert(opens@[k] == self.states@[i as int].0);
                        }
                    }
                    assert forall|k1: int, k2: int|
                        0 <= k1 < opens@.len() && 0 <= k2 < opens@.len() && k1 != k2
                        implies opens@[k1] != opens@[k2] by {
                        if k1 == opens@.len() - 1 || k2 == opens@.len() - 1 {
                            let kb = if k1 == opens@.len() - 1 {
                                k2
                            } else {
                                k1
                            };
                            assert(seed_key(self.states@, i as int, opens_pre[kb]));
                            let w = choose|w: int|
                                0 <= w < i && opens_pre[kb] == (#[trigger] self.states@[w]).0
                                    && self.states@[w].1 is Revealed;
                            if opens_pre[kb] == self.states@[i as int].0 {
                                assert(self.states@[w].0 == self.states@[i as int].0);
                            }
                        }
                    }
                }
            } else {
                proof {
                    assert forall|k: int|
                        0 <= k < opens@.len() implies seed_key(
                        self.states@,
                        i + 1,
                        #[trigger] opens@[k],
                    ) by {
                        lemma_seed_key_mono(self.states@, i as int, i + 1, opens@[k]);
                    }
                }
            }
            i += 1;
        }
        let ghost opens0 = opens@;
        proof {
            assert(self.states@.take(self.states@.len() as int) =~= self.states@);
            assert(opens0.len() == revealed_count(self.states@));
            assert forall|k: int|
                0 <= k < opens0.len() implies revealed@.contains(#[trigger] opens0[k])
                    || opens@.contains(opens0[k]) by {
                assert(opens@[k] == opens0[k]);
            }
        }
        while opens.len() > 0
            invariant
                self.wf(),
                solver.wf(),
                total == self.width * self.height,
                revealed@.no_duplicates(),
                revealed@.len() <= total,
                forall|k: int| 0 <= k < revealed@.len() ==> (#[trigger] revealed@[k]) < total,
                forall|k: int| 0 <= k < opens@.len() ==> (#[trigger] opens@[k]) < total,
                forall|k: int|
                    0 <= k < revealed@.len() ==> revealed_at(self.states@, #[trigger] revealed@[k])
                        || deduced_safe(*self, revealed@.take(k).to_set(), revealed@[k]),
                forall|k: int|
                    0 <= k < opens@.len() ==> revealed_at(self.states@, #[trigger] opens@[k])
                        || deduced_safe(*self, revealed@.to_set(), opens@[k]),
                forall|f: Set<usize>|
                    #[trigger] board_consistent(*self, revealed@.to_set(), f) ==> models(
                        f,
                        solver.hints@,
                    ),
                forall|k: int|
                    0 <= k < opens0.len() ==> revealed@.contains(#[trigger] opens0[k])
                        || opens@.contains(opens0[k]),
                honest_reveals(*self) ==> (forall|k: int|
                    0 <= k < revealed@.len() ==> !self.bombs@.contains(#[trigger] revealed@[k]))
                    && (forall|k: int|
                    0 <= k < opens@.len() ==> !self.bombs@.contains(#[trigger] opens@[k])),
            decreases total - revealed@.len(), opens@.len(),
        {
            let ghost opens_before = opens@;
            let cell = opens.pop().unwrap();
            if cells::vec_contains(&revealed, cell) {
                proof {
                    assert forall|k: int|
                        0 <= k < opens0.len() implies revealed@.contains(#[trigger] opens0[k])
                            || opens@.contains(opens0[k]) by {
                        if !revealed@.contains(opens0[k]) {
                            let kk = choose|kk: int|
                                0 <= kk < opens_before.len() && opens_before[kk] == opens0[k];
                            if kk < opens_before.len() - 1 {
                                assert(opens@[kk] == opens0[k]);
                            } else {
                                assert(revealed@.contains(cell));
                            }
                        }
                    }
                }
                continue;
            }
            proof {
                assert(cell == opens_before[opens_before.len() - 1]);
                assert(revealed_at(self.states@, cell) || deduced_safe(
                    *self,
                    revealed@.to_set(),
                    cell,
                ));
            }
            let ghost revealed_before = revealed@;
            revealed.push(cell);
            proof {
                assert forall|k1: int, k2: int|
                    0 <= k1 < revealed@.len() && 0 <= k2 < revealed@.len() && k1 != k2
                    implies revealed@[k1] != revealed@[k2] by {
                    if k1 == revealed@.len() - 1 && revealed@[k2] == cell {
                        assert(revealed_before.contains(cell));
                    }
                    if k2 == revealed@.len() - 1 && revealed@[k1] == cell {
                        assert(revealed_before.contains(cell));
                    }
                }
                cells::lemma_bounded_unique_len(revealed@, total);
                // The reveal chain grows by one forced (or already revealed)
                // cell; earlier entries keep their shorter prefixes.
                assert(revealed_before.to_set().subset_of(revealed@.to_set())) by {
                    assert forall|e: usize| revealed_before.to_set().contains(e)
                        implies revealed@.to_set().contains(e) by {
                        assert(revealed@.contains(e));
                    }
                }
                assert(revealed@.take(revealed_before.len() as int) =~= revealed_before);
                assert forall|k: int|
                    0 <= k < revealed@.len() implies revealed_at(
                    self.states@,
                    #[trigger] revealed@[k],
                ) || deduced_safe(*self, revealed@.take(k).to_set(), revealed@[k]) by {
                    if k < revealed_before.len() {
                        assert(revealed@.take(k) =~= revealed_before.take(k));
                    }
                }
                assert forall|k: int|
                    0 <= k < opens@.len() implies revealed_at(self.states@, #[trigger] opens@[k])
                        || deduced_safe(*self, revealed@.to_set(), opens@[k]) by {
                    assert(opens@[k] == opens_before[k]);
                    if !revealed_at(self.states@, opens@[k]) {
                        lemma_deduced_safe_mono(
                            *self,
                            revealed_before.to_set(),
                            revealed@.to_set(),
                            opens@[k],
                        );
                    }
                }
                assert forall|f: Set<usize>|
                    #[trigger] board_consistent(*self, revealed@.to_set(), f) implies models(
                    f,
                    solver.hints@,
                ) by {
                    assert(board_consistent(*self, revealed_before.to_set(), f));
                }
                assert(revealed@[revealed@.len() - 1] == cell);
                assert(revealed@.contains(cell));
                assert forall|k: int|
                    0 <= k < opens0.len() implies revealed@.contains(#[trigger] opens0[k])
                        || opens@.contains(opens0[k]) by {
                    if !revealed_before.contains(opens0[k]) && !revealed@.contains(opens0[k]) {
                        let kk = choose|kk: int|
                            0 <= kk < opens_before.len() && opens_before[kk] == opens0[k];
                        if kk < opens_before.len() - 1 {
                            assert(opens@[kk] == opens0[k]);
                        }
                    }
                }
                if honest_reveals(*self) {
                    assert(!self.bombs@.contains(cell)) by {
                        assert(opens_before[opens_before.len() - 1] == cell);
                    }
                }
            }
            let mut single: Vec<usize> = Vec::new();
            single.push(cell);
            let safe_hint = Hint::new(single, 0);
            let ghost safe_hint_g = safe_hint;
            let ghost kb0 = solver.hints@;
            solver.add_hint(safe_hint);
            proof {
                assert(safe_hint_g.squares@ =~= seq![cell]);
                assert forall|f: Set<usize>|
                    #[trigger] board_consistent(*self, revealed@.to_set(), f) implies models(
                    f,
                    solver.hints@,
                ) by {
                    assert(revealed@.to_set().contains(cell)) by {
                        assert(revealed@.contains(cell));
                    }
                    assert(!f.contains(cell));
                    crate::hint::lemma_atomic_sat(f, safe_hint_g);
                    assert(admits(kb0, safe_hint_g, f));
                }
            }
            proof {
                assert(total > 0);
                assert(self.width > 0) by {
                    if self.width == 0 {
                        assert(self.width * self.height == 0);
                    }
                }
                lemma_cell_coords(self.width as int, self.height as int, cell as int);
            }
            let x = cell % self.width;
            let y = cell / self.width;
            let around = self.get_around(x, y);
            let nb = self.get_bombs_around(x, y);
            proof {
                cells::lemma_unique_len(around@);
            }
            let count_hint = Hint::new(around, nb);
            let ghost count_hint_g = count_hint;
            let ghost kb1 = solver.hints@;
            solver.add_hint(count_hint);
            proof {
                assert forall|f: Set<usize>|
                    #[trigger] board_consistent(*self, revealed@.to_set(), f) implies models(
                    f,
                    solver.hints@,
                ) by {
                    assert(revealed@.to_set().contains(cell)) by {
                        assert(revealed@.contains(cell));
                    }
                    // The count hint restates the board's own adjacency
                    // count, which every consistent assignment matches.
                    assert(count_hint_g.sq().intersect(f).len() == count_hint_g.bombs);
                    assert(admits(kb1, count_hint_g, f));
                }
            }
            let res = solver.result();
            let mut j: usize = 0;
            while j < res.len()
                invariant
                    self.wf(),
                    solver.wf(),
                    j <= res@.len(),
                    total == self.width * self.height,
                    revealed@.no_duplicates(),
                    revealed@.len() <= total,
                    forall|k: int| 0 <= k < revealed@.len() ==> (#[trigger] revealed@[k]) < total,
                    forall|k: int| 0 <= k < opens@.len() ==> (#[trigger] opens@[k]) < total,
                    forall|k: int|
                        0 <= k < revealed@.len() ==> revealed_at(
                            self.states@,
                            #[trigger] revealed@[k],
                        ) || deduced_safe(*self, revealed@.take(k).to_set(), revealed@[k]),
                    forall|k: int|
                        0 <= k < opens@.len() ==> revealed_at(self.states@, #[trigger] opens@[k])
                            || deduced_safe(*self, revealed@.to_set(), opens@[k]),
                    forall|f: Set<usize>|
                        #[trigger] board_consistent(*self, revealed@.to_set(), f) ==> models(
                            f,
                            solver.hints@,
                        ),
                    forall|k: int|
                        0 <= k < res@.len() ==> solver.resolves_within(
                            solver.hints@.len() as int,
                            #[trigger] res@[k],
                        ),
                    forall|k: int|
                        0 <= k < opens0.len() ==> revealed@.contains(#[trigger] opens0[k])
                            || opens@.contains(opens0[k]),
                    honest_reveals(*self) ==> (forall|k: int|
                        0 <= k < revealed@.len() ==> !self.bombs@.contains(
                            #[trigger] revealed@[k],
                        )) && (forall|k: int|
                        0 <= k < opens@.len() ==> !self.bombs@.contains(#[trigger] opens@[k])),
                decreases res@.len() - j,
            {
                // The solver only ever speaks of on-board cells, so the
                // bound check never rejects anything; it merely keeps the
                // queue's range self-evident.
                if matches!(res[j].1, ResultState::Safe) && res[j].0 < total
                    && !cells::vec_contains(&revealed, res[j].0) {
                    proof {
                        assert forall|f: Set<usize>|
                            #[trigger] board_consistent(*self, revealed@.to_set(), f)
                            implies !f.contains(res@[j as int].0) by {
                            crate::solver::lemma_result_sound(&solver, f, res@[j as int]);
                        }
                        assert(deduced_safe(*self, revealed@.to_set(), res@[j as int].0));
                        if honest_reveals(*self) {
                            assert(board_consistent(
                                *self,
                                revealed@.to_set(),
                                self.bombs@.to_set(),
                            )) by {
                                assert forall|c: usize| #[trigger]
                                    revealed@.to_set().contains(c) implies !self.bombs@.to_set().contains(c)
                                        && neighbor_set(
                                        self.width as int,
                                        self.height as int,
                                        (c as int) % (self.width as int),
                                        (c as int) / (self.width as int),
                                    ).intersect(self.bombs@.to_set()).len() == self.adj_bombs(
                                        (c as int) % (self.width as int),
                                        (c as int) / (self.width as int),
                                    ) by {
                                    assert(revealed@.contains(c));
                                }
                            }
                            assert(!self.bombs@.to_set().contains(res@[j as int].0));
                            assert(!self.bombs@.contains(res@[j as int].0));
                        }
                    }
                    opens.push(res[j].0);
                }
                j += 1;
            }
        }
        proof {
            cells::lemma_bounded_unique_len(self.bombs@, total);
            if honest_reveals(*self) && revealed_count(self.states@) + self.bombs@.len()
                == self.width * self.height {
                // Every initially revealed square was reached, so the run
                // revealed at least them; disjointness from the mines bounds
                // it from above. The two counts meet exactly.
                assert(opens0.to_set().subset_of(revealed@.to_set())) by {
                    assert forall|e: usize| opens0.to_set().contains(e)
                        implies revealed@.to_set().contains(e) by {
                        let k = choose|k: int| 0 <= k < opens0.len() && opens0[k] == e;
                        assert(revealed@.contains(opens0[k]) || opens@.contains(opens0[k]));
                    }
                }
                cells::lemma_unique_len(opens0);
                cells::lemma_unique_len(revealed@);
                cells::lemma_subset_len(opens0.to_set(), revealed@.to_set());
                assert(revealed@.len() >= opens0.len());
                let cat = revealed@ + self.bombs@;
                assert(cat.no_duplicates()) by {
                    assert forall|k1: int, k2: int|
                        0 <= k1 < cat.len() && 0 <= k2 < cat.len() && k1 != k2 implies cat[k1]
                        != cat[k2] by {
                        if k1 < revealed@.len() && k2 >= revealed@.len() {
                            assert(cat[k1] == revealed@[k1]);
                            assert(cat[k2] == self.bombs@[k2 - revealed@.len()]);
                            if cat[k1] == cat[k2] {
                                assert(self.bombs@.contains(revealed@[k1]));
                            }
                        }
                        if k2 < revealed@.len() && k1 >= revealed@.len() {
                            assert(cat[k2] == revealed@[k2]);
                            assert(cat[k1] == self.bombs@[k1 - revealed@.len()]);
                            if cat[k1] == cat[k2] {
                                assert(self.bombs@.contains(revealed@[k2]));
                            }
                        }
                    }
                }
                assert(forall|k: int| 0 <= k < cat.len() ==> (#[trigger] cat[k]) < total);
                cells::lemma_bounded_unique_len(cat, total);
                assert(revealed@.len() + self.bombs@.len() <= total);
                assert(revealed@.len() == total - self.bombs@.len());
            }
        }
        let r = total - revealed.len() == self.bombs.len();
        proof {
            if r {
                assert(deduction_chain(*self, revealed@));
                assert(revealed@.len() + self.bombs@.len() == self.width * self.height);
            }
        }
        r
    }
}

} // verus!