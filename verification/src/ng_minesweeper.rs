//! The no-guess game: the board is generated lazily on the first open, and
//! only placements that the solvability oracle accepts are kept, so every
//! square can be cleared by deduction alone.

use vstd::prelude::*;
use crate::minesweeper::{
    deduction_chain,
    flagged_at,
    has_key,
    lemma_cell_bound,
    lemma_cell_coords,
    revealed_at,
    revealed_count,
    GameState,
    Minesweeper,
    State,
};

verus! {

/// A game whose board does not exist until the first square is opened.
pub struct NGMinesweeper {
    pub width: usize,
    pub height: usize,
    pub bombs_num: usize,
    pub minesweeper: Option<Minesweeper>,
}

impl NGMinesweeper {
    /// The configuration is valid (fewer mines than squares, cell count
    /// fits the machine) and any generated board matches it.
    pub open spec fn wf(&self) -> bool {
        &&& self.width * self.height <= usize::MAX
        &&& self.bombs_num < self.width * self.height
        &&& self.minesweeper matches Some(m) ==> m.wf() && m.width == self.width && m.height
            == self.height
    }

    pub fn new(width: usize, height: usize, bombs_num: usize) -> (r: Self)
        requires
            width * height <= usize::MAX,
            bombs_num < width * height,
        ensures
            r.width == width,
            r.height == height,
            r.bombs_num == bombs_num,
            r.minesweeper is None,
            r.wf(),
    {
        Self { width, height, bombs_num, minesweeper: None }
    }

    /// Rejection sampling: draw random boards until one has no mine on the
    /// starting square and the oracle reports it solvable. The attempt
    /// budget only gives the termination checker a bound; in practice a
    /// valid configuration is accepted long before it runs out.
    fn generate(&mut self, start: usize)
        requires
            old(self).wf(),
            old(self).minesweeper is None,
            start < old(self).width * old(self).height,
        ensures
            final(self).wf(),
            final(self).width == old(self).width,
            final(self).height == old(self).height,
            final(self).bombs_num == old(self).bombs_num,
            final(self).minesweeper matches Some(m) ==> !m.bombs@.contains(start)
                && m.bombs@.len() == old(self).bombs_num && revealed_at(m.states@, start) && (
            exists|reached: Seq<usize>|
                #[trigger] deduction_chain(m, reached) && reached.len() + m.bombs@.len()
                    == m.width * m.height),
    {
        let mut attempts: usize = usize::MAX;
        while attempts > 0
            invariant
                self.wf(),
                self.minesweeper is None,
                self.width == old(self).width,
                self.height == old(self).height,
                self.bombs_num == old(self).bombs_num,
                start < self.width * self.height,
            decreases attempts,
        {
            attempts -= 1;
            let mut ms = Minesweeper::new_random(self.width, self.height, self.bombs_num);
            proof {
                assert(self.width > 0) by {
                    if self.width == 0 {
                        assert(self.width * self.height == 0);
                    }
                }
                lemma_cell_coords(self.width as int, self.height as int, start as int);
            }
            let x = start % self.width;
            let y = start / self.width;
            let r0 = ms.open(x, y);
            if matches!(r0, Some(GameState::Lose)) {
                continue;
            }
            proof {
                assert((x + y * self.width) as usize == start);
                assert(!ms.bombs@.contains(start));
                assert(!has_key(Seq::<(usize, State)>::empty(), start));
                assert(ms.states@[0].0 == start && ms.states@[0].1 is Revealed);
                assert(revealed_at(ms.states@, start));
            }
            if ms.is_solvable() {
                self.minesweeper = Some(ms);
                return;
            }
        }
    }

    /// Opens `(x, y)`, generating a solvable board around that square the
    /// first time.
    pub fn open(&mut self, x: usize, y: usize) -> (r: Option<GameState>)
        requires
            old(self).wf(),
            x < old(self).width,
            y < old(self).height,
        ensures
            final(self).wf(),
            final(self).width == old(self).width,
            final(self).height == old(self).height,
            final(self).bombs_num == old(self).bombs_num,
            old(self).minesweeper is None ==> r != Some(GameState::Lose),
            old(self).minesweeper is None ==> (final(self).minesweeper matches Some(m) ==> ({
                let start = (x + y * old(self).width) as usize;
                &&& !m.bombs@.contains(start)
                &&& m.bombs@.len() == old(self).bombs_num
                &&& revealed_at(m.states@, start)
                &&& r == (if revealed_count(m.states@) + m.bombs@.len() == m.width * m.height {
                    Some(GameState::Win)
                } else {
                    None::<GameState>
                })
                &&& exists|reached: Seq<usize>|
                    #[trigger] deduction_chain(m, reached) && reached.len() + m.bombs@.len()
                        == m.width * m.height
            })),
            old(self).minesweeper matches Some(m) ==> (final(self).minesweeper matches Some(m2)
                && m2.width == m.width && m2.height == m.height && m2.bombs == m.bombs && ({
                let p = (x + y * m.width) as usize;
                &&& m.bombs@.contains(p) ==> r == Some(GameState::Lose) && m2 == m
                &&& !m.bombs@.contains(p) ==> ({
                    &&& has_key(m.states@, p) ==> m2.states == m.states
                    &&& !has_key(m.states@, p) ==> m2.states@ == m.states@.push(
                        (p, State::Revealed(m.adj_bombs(x as int, y as int) as usize)),
                    )
                    &&& r == (if revealed_count(m2.states@) + m.bombs@.len() == m.width
                        * m.height {
                        Some(GameState::Win)
                    } else {
                        None::<GameState>
                    })
                })
            })),
    {
        if self.minesweeper.is_none() {
            proof {
                lemma_cell_bound(self.width as int, self.height as int, x as int, y as int);
            }
            let p = x + y * self.width;
            self.generate(p);
        }
        match &mut self.minesweeper {
            Some(ms) => {
                let ghost pre = *ms;
                let r = ms.open(x, y);
                proof {
                    if old(self).minesweeper is None {
                        // The generated board has the start square already
                        // revealed, so this open changes nothing and cannot
                        // lose.
                        assert(!pre.bombs@.contains((x + y * pre.width) as usize));
                        if !has_key(pre.states@, (x + y * pre.width) as usize) {
                            assert(revealed_at(pre.states@, (x + y * pre.width) as usize));
                            assert(false);
                        }
                    }
                }
                r
            },
            None => None,
        }
    }

    /// Toggles a flag, once a board exists.
    pub fn toggle_flag(&mut self, x: usize, y: usize)
        requires
            old(self).wf(),
            x < old(self).width,
            y < old(self).height,
        ensures
            final(self).wf(),
            final(self).width == old(self).width,
            final(self).height == old(self).height,
            final(self).bombs_num == old(self).bombs_num,
            old(self).minesweeper is None ==> *final(self) == *old(self),
            old(self).minesweeper matches Some(m) ==> (final(self).minesweeper matches Some(m2)
                && m2.width == m.width && m2.height == m.height && m2.bombs == m.bombs && ({
                let p = (x + y * m.width) as usize;
                &&& !has_key(m.states@, p) ==> m2.states@ == m.states@.push((p, State::Flagged))
                &&& revealed_at(m.states@, p) ==> m2 == m
                &&& flagged_at(m.states@, p) ==> !has_key(m2.states@, p) && forall|
                    e: (usize, State),
                |
                    e.0 != p ==> (m2.states@.contains(e) <==> m.states@.contains(e))
            })),
    {
        match &mut self.minesweeper {
            Some(ms) => ms.toggle_flag(x, y),
            None => (),
        }
    }

    /// The visible field; all untouched while no board exists.
    pub fn field(&self) -> (r: Vec<Vec<Option<State>>>)
        requires
            self.wf(),
        ensures
            r@.len() == self.height,
            forall|yy: int| 0 <= yy < self.height ==> (#[trigger] r@[yy])@.len() == self.width,
            self.minesweeper is None ==> forall|yy: int, xx: int|
                0 <= yy < self.height && 0 <= xx < self.width ==> (#[trigger] r@[yy]@[xx])
                    is None,
            self.minesweeper matches Some(m) ==> forall|yy: int, xx: int|
                0 <= yy < self.height && 0 <= xx < self.width ==> ({
                    let p = (xx + yy * self.width) as usize;
                    &&& ((#[trigger] r@[yy]@[xx]) is Some <==> has_key(m.states@, p))
                    &&& forall|st: State|
                        r@[yy]@[xx] == Some(st) ==> exists|k: int|
                            0 <= k < m.states@.len() && #[trigger] m.states@[k] == (p, st)
                }),
    {
        match &self.minesweeper {
            Some(ms) => ms.field(),
            None => {
                let mut r: Vec<Vec<Option<State>>> = Vec::new();
                let mut yy: usize = 0;
                while yy < self.height
                    invariant
                        yy <= self.height,
                        r@.len() == yy,
                        forall|y2: int| 0 <= y2 < yy ==> (#[trigger] r@[y2])@.len() == self.width,
                        forall|y2: int, x2: int|
                            0 <= y2 < yy && 0 <= x2 < self.width ==> (#[trigger] r@[y2]@[x2])
                                is None,
                    decreases self.height - yy,
                {
                    let mut row: Vec<Option<State>> = Vec::new();
                    let mut xx: usize = 0;
                    while xx < self.width
                        invariant
                            xx <= self.width,
                            row@.len() == xx,
                            forall|x2: int| 0 <= x2 < xx ==> (#[trigger] row@[x2]) is None,
                        decreases self.width - xx,
                    {
                        row.push(None);
                        xx += 1;
                    }
                    r.push(row);
                    yy += 1;
                }
                r
            },
        }
    }

    /// The fully revealed board, once one exists.
    pub fn all_reveal(&self) -> (r: Option<Vec<Vec<State>>>)
        requires
            self.wf(),
        ensures
            r is Some <==> self.minesweeper is Some,
            self.minesweeper matches Some(m) ==> (r matches Some(g) && g@.len() == m.height && (
            forall|yy: int| 0 <= yy < m.height ==> (#[trigger] g@[yy])@.len() == m.width) && (
            forall|yy: int, xx: int|
                0 <= yy < m.height && 0 <= xx < m.width ==> ({
                    let p = (xx + yy * m.width) as usize;
                    (#[trigger] g@[yy]@[xx]) == (if m.bombs@.contains(p) {
                        State::Flagged
                    } else {
                        State::Revealed(m.adj_bombs(xx, yy) as usize)
                    })
                }))),
    {
        match &self.minesweeper {
            Some(ms) => Some(ms.all_reveal()),
            None => None,
        }
    }
}

} // verus!
