//! The atomic constraint of the engine: "exactly `bombs` of these `squares`
//! are mines", together with its algebra (difference, intersection) and the
//! subset partial order on the square sets.

use vstd::prelude::*;
use crate::cells;

verus! {

/// One constraint over a set of cells. `squares` is duplicate-free; a
/// well-formed hint never claims more bombs than it has squares.
#[derive(Debug, Clone)]
pub struct Hint {
    pub squares: Vec<usize>,
    pub bombs: usize,
}

/// How the square sets of two hints compare under inclusion. The ambiguous
/// case is an explicit variant, so callers must branch on it.
#[derive(Debug, Clone, Copy, PartialEq, Eq, Structural)]
pub enum HintOrder {
    Less,
    Greater,
    Equal,
    Incomparable,
}

/// An assignment of mines (the set of mined cells) meets a hint when the
/// hint's region holds exactly the promised number of mines.
pub open spec fn sat(mines: Set<usize>, h: Hint) -> bool {
    h.sq().intersect(mines).len() == h.bombs
}

/// The least number of `h`'s bombs that must lie inside an overlap of
/// cardinality `icard`, clamped at zero.
pub open spec fn forced_min(h: Hint, icard: int) -> int {
    vstd::math::max(h.bombs - (h.sq().len() - icard), 0)
}

impl Hint {
    /// The mathematical set of squares this hint constrains.
    pub open spec fn sq(&self) -> Set<usize> {
        self.squares@.to_set()
    }

    /// Structural soundness: no duplicate squares, and no more bombs than
    /// squares.
    pub open spec fn wf(&self) -> bool {
        &&& self.squares@.no_duplicates()
        &&& self.bombs <= self.squares@.len()
    }

    pub fn new(squares: Vec<usize>, bombs: usize) -> (r: Self)
        requires
            squares@.no_duplicates(),
            bombs <= squares@.len(),
        ensures
            r.squares == squares,
            r.bombs == bombs,
            r.wf(),
    {
        Self { squares, bombs }
    }

    pub fn squares(&self) -> (r: &Vec<usize>)
        ensures
            r == &self.squares,
    {
        &self.squares
    }

    pub fn bombs(&self) -> (r: usize)
        ensures
            r == self.bombs,
    {
        self.bombs
    }

    /// Empties the hint in place: a tombstone awaiting compaction.
    pub fn clear(&mut self)
        ensures
            final(self).squares@.len() == 0,
            final(self).bombs == 0,
            final(self).wf(),
    {
        self.squares = Vec::new();
        self.bombs = 0;
    }

    pub fn is_empty(&self) -> (r: bool)
        ensures
            r == (self.squares@.len() == 0),
    {
        self.squares.len() == 0
    }

    /// Compares the two square sets under inclusion.
    pub fn compare(&self, other: &Self) -> (r: HintOrder)
        ensures
            r == HintOrder::Equal <==> self.sq() == other.sq(),
            r == HintOrder::Less <==> (self.sq().subset_of(other.sq()) && self.sq()
                != other.sq()),
            r == HintOrder::Greater <==> (other.sq().subset_of(self.sq()) && self.sq()
                != other.sq()),
            r == HintOrder::Incomparable <==> (!self.sq().subset_of(other.sq())
                && !other.sq().subset_of(self.sq())),
    {
        proof {
            if self.sq().subset_of(other.sq()) && other.sq().subset_of(self.sq()) {
                assert(self.sq() =~= other.sq());
            }
        }
        if cells::set_eq(&self.squares, &other.squares) {
            HintOrder::Equal
        } else if cells::is_subset(&self.squares, &other.squares) {
            HintOrder::Less
        } else if cells::is_subset(&other.squares, &self.squares) {
            HintOrder::Greater
        } else {
            HintOrder::Incomparable
        }
    }

    /// Removes an exactly-known sub-constraint: the remaining region holds
    /// the remaining bombs.
    pub fn difference(&self, other: &Self) -> (r: Self)
        requires
            self.wf(),
            other.wf(),
            other.sq().subset_of(self.sq()),
            other.bombs <= self.bombs,
            self.bombs - other.bombs <= self.sq().len() - other.sq().len(),
        ensures
            r.sq() == self.sq().difference(other.sq()),
            r.bombs == self.bombs - other.bombs,
            r.wf(),
    {
        proof {
            cells::lemma_unique_len(self.squares@);
            cells::lemma_unique_len(other.squares@);
        }
        let sq = cells::set_diff(&self.squares, &other.squares);
        proof {
            cells::lemma_unique_len(sq@);
            vstd::set_lib::lemma_set_difference_len(self.sq(), other.sq());
            assert(self.sq().intersect(other.sq()) =~= other.sq());
        }
        Hint { squares: sq, bombs: self.bombs - other.bombs }
    }

    /// The overlap of two hints, accepted only when both sides force the
    /// same bomb count onto it; `None` when the regions cannot yet be merged
    /// unambiguously.
    pub fn intersection(&self, other: &Self) -> (r: Option<Self>)
        requires
            self.wf(),
            other.wf(),
        ensures
            ({
                let i = self.sq().intersect(other.sq());
                let cand = vstd::math::min(
                    i.len() as int,
                    vstd::math::min(self.bombs as int, other.bombs as int),
                );
                &&& r is Some <==> vstd::math::max(
                    forced_min(*self, i.len() as int),
                    forced_min(*other, i.len() as int),
                ) == cand
                &&& r matches Some(c) ==> c.sq() == i && c.bombs == cand && c.wf()
            }),
    {
        proof {
            cells::lemma_unique_len(self.squares@);
            cells::lemma_unique_len(other.squares@);
        }
        let inter = cells::set_intersect(&self.squares, &other.squares);
        proof {
            cells::lemma_unique_len(inter@);
            cells::lemma_subset_len(self.sq().intersect(other.sq()), self.sq());
            cells::lemma_subset_len(self.sq().intersect(other.sq()), other.sq());
        }
        let ilen = inter.len();
        let least_bombs = if self.bombs < other.bombs {
            self.bombs
        } else {
            other.bombs
        };
        let cand_bombs = if ilen < least_bombs {
            ilen
        } else {
            least_bombs
        };
        let forced_self = self.bombs.saturating_sub(self.squares.len() - ilen);
        let forced_other = other.bombs.saturating_sub(other.squares.len() - ilen);
        let forced = if forced_self > forced_other {
            forced_self
        } else {
            forced_other
        };
        if forced == cand_bombs {
            Some(Hint { squares: inter, bombs: cand_bombs })
        } else {
            None
        }
    }
}

/// Soundness of the all-mines decomposition: a hint with as many bombs as
/// squares makes each of its squares a mine.
pub proof fn lemma_full_sound(mines: Set<usize>, h: Hint, sq: usize)
    requires
        h.wf(),
        sat(mines, h),
        h.bombs == h.squares@.len(),
        h.squares@.contains(sq),
    ensures
        mines.contains(sq),
{
    cells::lemma_unique_len(h.squares@);
    let hm = h.sq().intersect(mines);
    cells::lemma_subset_len(hm, h.sq());
    cells::lemma_subset_equal_len(hm, h.sq());
    assert(h.sq().contains(sq));
}

/// Soundness of the all-safe decomposition: a zero-bomb hint makes each of
/// its squares mine-free.
pub proof fn lemma_zero_sound(mines: Set<usize>, h: Hint, sq: usize)
    requires
        h.wf(),
        sat(mines, h),
        h.bombs == 0,
        h.squares@.contains(sq),
    ensures
        !mines.contains(sq),
{
    cells::lemma_unique_len(h.squares@);
    let hm = h.sq().intersect(mines);
    cells::lemma_subset_len(hm, h.sq());
    hm.lemma_len0_is_empty();
    if mines.contains(sq) {
        assert(hm.contains(sq));
    }
}

/// What an atomic hint says of an assignment: its single cell is a mine
/// exactly when the hint promises one bomb.
pub proof fn lemma_atomic_sat(mines: Set<usize>, h: Hint)
    requires
        h.squares@.len() == 1,
        h.bombs <= 1,
    ensures
        sat(mines, h) <==> (if h.bombs == 1 {
            mines.contains(h.squares@[0])
        } else {
            !mines.contains(h.squares@[0])
        }),
{
    let c = h.squares@[0];
    assert(h.sq() =~= Set::empty().insert(c)) by {
        assert(h.squares@.contains(c));
        assert forall|e: usize| h.sq().contains(e) implies e == c by {
            let k = choose|k: int| 0 <= k < h.squares@.len() && h.squares@[k] == e;
        }
    }
    if mines.contains(c) {
        assert(h.sq().intersect(mines) =~= Set::empty().insert(c));
        assert(Set::empty().insert(c).len() == 1);
    } else {
        assert(h.sq().intersect(mines) =~= Set::<usize>::empty());
    }
}

/// An emptied hint constrains nothing.
pub proof fn lemma_empty_sat(mines: Set<usize>, h: Hint)
    requires
        h.squares@.len() == 0,
        h.bombs == 0,
    ensures
        sat(mines, h),
{
    assert(h.sq() =~= Set::<usize>::empty());
    assert(h.sq().intersect(mines) =~= Set::<usize>::empty());
}

/// Soundness of `difference`: an assignment that meets a hint and an
/// exactly-known sub-constraint of it also meets their difference.
pub proof fn lemma_difference_sound(mines: Set<usize>, a: Hint, b: Hint, d: Hint)
    requires
        a.wf(),
        b.wf(),
        b.sq().subset_of(a.sq()),
        d.sq() == a.sq().difference(b.sq()),
        d.bombs == a.bombs - b.bombs,
        sat(mines, a),
        sat(mines, b),
    ensures
        sat(mines, d),
{
    cells::lemma_unique_len(a.squares@);
    let am = a.sq().intersect(mines);
    let bm = b.sq().intersect(mines);
    let dm = d.sq().intersect(mines);
    assert(am.finite()) by {
        cells::lemma_subset_len(am, a.sq());
    }
    assert(bm.finite()) by {
        cells::lemma_unique_len(b.squares@);
        cells::lemma_subset_len(bm, b.sq());
    }
    assert(bm =~= am.intersect(b.sq()));
    assert(dm =~= am.difference(b.sq()));
    vstd::set_lib::lemma_set_difference_len(am, b.sq());
}

/// Soundness of `intersection` (the agreement case): when both hints force
/// the same bomb count onto their overlap, every assignment meeting both
/// puts exactly that many mines in the overlap.
pub proof fn lemma_intersection_sound(mines: Set<usize>, a: Hint, b: Hint, c: Hint)
    requires
        a.wf(),
        b.wf(),
        c.sq() == a.sq().intersect(b.sq()),
        c.bombs == vstd::math::min(
            c.sq().len() as int,
            vstd::math::min(a.bombs as int, b.bombs as int),
        ),
        vstd::math::max(
            forced_min(a, c.sq().len() as int),
            forced_min(b, c.sq().len() as int),
        ) == c.bombs,
        sat(mines, a),
        sat(mines, b),
    ensures
        sat(mines, c),
{
    cells::lemma_unique_len(a.squares@);
    cells::lemma_unique_len(b.squares@);
    let i = c.sq();
    let am = a.sq().intersect(mines);
    let bm = b.sq().intersect(mines);
    let im = i.intersect(mines);
    assert(am.finite() && am.len() <= a.sq().len()) by {
        cells::lemma_subset_len(am, a.sq());
    }
    assert(bm.finite() && bm.len() <= b.sq().len()) by {
        cells::lemma_subset_len(bm, b.sq());
    }
    // The overlap cannot hold more mines than either side has, nor more
    // than it has cells.
    assert(im =~= am.intersect(bm));
    assert(im.subset_of(am) && im.subset_of(bm) && im.subset_of(i));
    assert(i.finite()) by {
        cells::lemma_subset_len(i, a.sq());
    }
    cells::lemma_subset_len(im, am);
    cells::lemma_subset_len(im, i);
    // Each side leaves at most |side| - |overlap| mines outside the overlap,
    // so at least bombs - (|side| - |overlap|) of its mines sit inside.
    assert(am.difference(i) =~= am.difference(im));
    assert(am.difference(i).subset_of(a.sq().difference(i)));
    assert(a.sq().difference(i).finite() && a.sq().difference(i).len() == a.sq().len()
        - i.len()) by {
        vstd::set_lib::lemma_set_difference_len(a.sq(), i);
        assert(a.sq().intersect(i) =~= i);
    }
    cells::lemma_subset_len(am.difference(i), a.sq().difference(i));
    vstd::set_lib::lemma_set_difference_len(am, im);
    assert(am.intersect(im) =~= im);
    assert(im.len() >= a.bombs - (a.sq().len() - i.len()));
    assert(bm.difference(i) =~= bm.difference(im));
    assert(bm.difference(i).subset_of(b.sq().difference(i)));
    assert(b.sq().difference(i).finite() && b.sq().difference(i).len() == b.sq().len()
        - i.len()) by {
        vstd::set_lib::lemma_set_difference_len(b.sq(), i);
        assert(b.sq().intersect(i) =~= i);
    }
    cells::lemma_subset_len(bm.difference(i), b.sq().difference(i));
    vstd::set_lib::lemma_set_difference_len(bm, im);
    assert(bm.intersect(im) =~= im);
    assert(im.len() >= b.bombs - (b.sq().len() - i.len()));
}

} // verus!
