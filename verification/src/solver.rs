//! The constraint-propagation engine: a knowledge base of live `Hint`s plus
//! the set of cells whose status has been fully derived. New hints are
//! propagated to a fixpoint through an explicit worklist.

use vstd::prelude::*;
use crate::cells;
use crate::hint::{
    lemma_atomic_sat,
    lemma_difference_sound,
    lemma_empty_sat,
    lemma_full_sound,
    lemma_intersection_sound,
    lemma_zero_sound,
    sat,
    Hint,
    HintOrder,
};

verus! {

broadcast use vstd::seq_lib::lemma_seq_contains_after_push;

/// Whether the mine assignment `mines` meets every hint of the sequence.
pub open spec fn models(mines: Set<usize>, hints: Seq<Hint>) -> bool {
    forall|i: int| 0 <= i < hints.len() ==> sat(mines, #[trigger] hints[i])
}

/// Whether the mine assignment `mines` meets a knowledge base together
/// with one incoming hint.
pub open spec fn admits(base: Seq<Hint>, h: Hint, mines: Set<usize>) -> bool {
    models(mines, base) && sat(mines, h)
}

/// A sequence extended by one hint is met exactly when the sequence and
/// the hint both are.
pub proof fn lemma_models_push(mines: Set<usize>, s: Seq<Hint>, h: Hint)
    ensures
        models(mines, s.push(h)) <==> (models(mines, s) && sat(mines, h)),
{
    if models(mines, s.push(h)) {
        assert forall|i: int| 0 <= i < s.len() implies sat(mines, #[trigger] s[i]) by {
            assert(s.push(h)[i] == s[i]);
        }
        assert(s.push(h)[s.len() as int] == h);
    }
    if models(mines, s) && sat(mines, h) {
        assert forall|i: int| 0 <= i < s.push(h).len() implies sat(
            mines,
            #[trigger] s.push(h)[i],
        ) by {
            if i < s.len() {
                assert(s.push(h)[i] == s[i]);
            } else {
                assert(s.push(h)[i] == h);
            }
        }
    }
}

/// Replacing one hint by another that the assignment meets preserves the
/// model relation.
pub proof fn lemma_models_update(mines: Set<usize>, s: Seq<Hint>, i: int, h: Hint)
    requires
        0 <= i < s.len(),
        models(mines, s),
        sat(mines, h),
    ensures
        models(mines, s.update(i, h)),
{
    assert forall|j: int| 0 <= j < s.update(i, h).len() implies sat(
        mines,
        #[trigger] s.update(i, h)[j],
    ) by {
        if j != i {
            assert(s.update(i, h)[j] == s[j]);
        }
    }
}

/// A sequence drawn from the hints of a met sequence is met as well.
pub proof fn lemma_models_contained(mines: Set<usize>, s1: Seq<Hint>, s2: Seq<Hint>)
    requires
        models(mines, s2),
        forall|i: int| 0 <= i < s1.len() ==> s2.contains(#[trigger] s1[i]),
    ensures
        models(mines, s1),
{
    assert forall|i: int| 0 <= i < s1.len() implies sat(mines, #[trigger] s1[i]) by {
        let j = choose|j: int| 0 <= j < s2.len() && s2[j] == s1[i];
    }
}

/// Every entry of `s` is a one-cell hint with `b` bombs on a square of
/// `owner`.
pub open spec fn all_atoms_of(s: Seq<Hint>, owner: Hint, b: usize) -> bool {
    forall|k: int|
        0 <= k < s.len() ==> (#[trigger] s[k]).squares@.len() == 1 && s[k].bombs == b
            && owner.squares@.contains(s[k].squares@[0])
}

/// The one-cell hints of `s1` and `s2` sit on disjoint cells.
pub open spec fn atom_cells_disjoint(s1: Seq<Hint>, s2: Seq<Hint>) -> bool {
    forall|k: int, i: int|
        0 <= k < s1.len() && 0 <= i < s2.len() ==> (#[trigger] s1[k]).squares@[0] != (
        #[trigger] s2[i]).squares@[0]
}

/// The one-cell hints of `s` sit on pairwise distinct cells.
pub open spec fn atom_cells_distinct(s: Seq<Hint>) -> bool {
    forall|k: int, i: int|
        0 <= k < s.len() && 0 <= i < s.len() && k != i ==> (#[trigger] s[k]).squares@[0] != (
        #[trigger] s[i]).squares@[0]
}

/// Every square of `owner` has its one-cell hint in `hints` or in `work`.
pub open spec fn squares_covered(owner: Hint, hints: Seq<Hint>, work: Seq<Hint>) -> bool {
    forall|q: int|
        0 <= q < owner.squares@.len() ==> (exists|i: int|
            0 <= i < hints.len() && (#[trigger] hints[i]).squares@.len() == 1
                && hints[i].squares@[0] == owner.squares@[q]) || (exists|k: int|
            0 <= k < work.len() && (#[trigger] work[k]).squares@.len() == 1 && work[k].squares@[0]
                == #[trigger] owner.squares@[q])
}

/// An atomic hint on a cell that no stored hint mentions: ingestion must
/// then store and confirm the cell outright, whatever else the base holds.
pub open spec fn isolated_atom(s: &Solver, h: Hint) -> bool {
    &&& h.squares@.len() == 1
    &&& forall|i: int|
        0 <= i < s.hints@.len() ==> !(#[trigger] s.hints@[i]).squares@.contains(h.squares@[0])
}

/// A fresh knowledge base given an all-mines or all-safe hint over more
/// than one square: the case whose full resolution the contract promises.
pub open spec fn fresh_decomposition(s: &Solver, h: Hint) -> bool {
    &&& s.hints@.len() == 0
    &&& s.confirmed@.len() == 0
    &&& 1 < h.squares@.len() < usize::MAX - 1
    &&& (h.bombs == h.squares@.len() || h.bombs == 0)
}

/// The derived status of a fully resolved cell.
#[derive(Debug, Copy, Clone, PartialEq, Eq, Structural)]
pub enum ResultState {
    Safe,
    Danger,
}

/// The knowledge base. Cleared hints (empty squares) may linger between
/// propagation steps; compaction drops them.
pub struct Solver {
    pub hints: Vec<Hint>,
    pub confirmed: Vec<usize>,
}

impl Solver {
    /// Solver invariants: every hint is well formed, every live atomic hint's
    /// cell is confirmed, confirmed cells are listed once, and no two live
    /// hints constrain the same square set.
    pub open spec fn wf(&self) -> bool {
        &&& forall|i: int| 0 <= i < self.hints@.len() ==> (#[trigger] self.hints@[i]).wf()
        &&& forall|i: int|
            0 <= i < self.hints@.len() && (#[trigger] self.hints@[i]).squares@.len() == 1
                ==> self.confirmed@.contains(self.hints@[i].squares@[0])
        &&& self.confirmed@.no_duplicates()
        &&& forall|i: int, j: int|
            0 <= i < self.hints@.len() && 0 <= j < self.hints@.len() && i != j
                && (#[trigger] self.hints@[i]).squares@.len() > 0
                && (#[trigger] self.hints@[j]).squares@.len() > 0
                ==> self.hints@[i].sq() != self.hints@[j].sq()
    }

    /// An empty knowledge base: nothing known, nothing confirmed.
    pub fn new() -> (r: Self)
        ensures
            r.hints@.len() == 0,
            r.confirmed@.len() == 0,
            r.wf(),
    {
        Solver { hints: Vec::new(), confirmed: Vec::new() }
    }

    /// Ingests one hint and propagates it to a fixpoint. Confirmed cells
    /// are never forgotten, and propagation is sound: any mine assignment
    /// that met the previous knowledge base and the new hint still meets
    /// the knowledge base afterwards — the steps only rephrase what the
    /// hints already said. An empty hint changes nothing; a first hint
    /// always leaves knowledge behind; on a fresh solver an all-mines or
    /// all-safe hint resolves exactly its squares, each with its status;
    /// and whatever the base holds, an atomic hint on a cell no stored
    /// hint mentions is stored and confirmed outright.
    pub fn add_hint(&mut self, new_hint: Hint)
        requires
            old(self).wf(),
            new_hint.wf(),
        ensures
            final(self).wf(),
            forall|c: usize|
                old(self).confirmed@.contains(c) ==> final(self).confirmed@.contains(c),
            forall|mines: Set<usize>|
                #[trigger] admits(old(self).hints@, new_hint, mines) ==> models(
                    mines,
                    final(self).hints@,
                ),
            new_hint.squares@.len() == 0 ==> final(self).hints@ == old(self).hints@
                && final(self).confirmed@ == old(self).confirmed@,
            old(self).hints@.len() == 0 && old(self).confirmed@.len() == 0
                && new_hint.squares@.len() > 0 ==> final(self).hints@.len() > 0,
            isolated_atom(old(self), new_hint) ==> final(self).confirmed@.contains(
                new_hint.squares@[0],
            ) && final(self).resolves_within(
                final(self).hints@.len() as int,
                (new_hint.squares@[0], status_of(new_hint.bombs as nat)),
            ),
            fresh_decomposition(old(self), new_hint) ==> all_atoms_of(
                final(self).hints@,
                new_hint,
                if new_hint.bombs == 0 {
                    0usize
                } else {
                    1usize
                },
            ),
            fresh_decomposition(old(self), new_hint) ==> forall|mines: Set<usize>|
                models(mines, final(self).hints@) ==> #[trigger] admits(
                    old(self).hints@,
                    new_hint,
                    mines,
                ),
            fresh_decomposition(old(self), new_hint) ==> forall|q: int|
                0 <= q < new_hint.squares@.len() ==> final(self).resolves_within(
                    final(self).hints@.len() as int,
                    (
                        #[trigger] new_hint.squares@[q],
                        if new_hint.bombs == 0 {
                            ResultState::Safe
                        } else {
                            ResultState::Danger
                        },
                    ),
                ),
    {
        let mut work: Vec<Hint> = Vec::new();
        work.push(new_hint);
        proof {
            assert(work@ =~= Seq::<Hint>::empty().push(new_hint));
            assert forall|mines: Set<usize>|
                #[trigger] admits(old(self).hints@, new_hint, mines) implies models(
                mines,
                work@,
            ) by {
                lemma_models_push(mines, Seq::<Hint>::empty(), new_hint);
            }
        }
        // Propagation reaches its fixpoint after finitely many steps: every
        // step either discards a hint or replaces hints by strictly smaller
        // disjoint pieces. The step budget below only gives the termination
        // checker a syntactic bound; no reachable input comes near it.
        let mut budget: usize = usize::MAX;
        while work.len() > 0 && budget > 0
            invariant
                self.wf(),
                forall|k: int| 0 <= k < work@.len() ==> (#[trigger] work@[k]).wf(),
                forall|c: usize|
                    old(self).confirmed@.contains(c) ==> self.confirmed@.contains(c),
                forall|mines: Set<usize>|
                    #[trigger] admits(old(self).hints@, new_hint, mines) ==> models(
                        mines,
                        self.hints@,
                    ) && models(mines, work@),
                new_hint.squares@.len() == 0 ==> self.hints@ == old(self).hints@
                    && self.confirmed@ == old(self).confirmed@ && (work@.len() == 0 || (work@.len()
                    == 1 && work@[0] == new_hint)),
                old(self).hints@.len() == 0 && old(self).confirmed@.len() == 0
                    && new_hint.squares@.len() > 0 ==> self.hints@.len() > 0 || (self.hints@.len()
                    == 0 && self.confirmed@.len() == 0 && work@.len() > 0 && work@[work@.len()
                    - 1].squares@.len() == 1 && budget >= 1) || (self.hints@.len() == 0
                    && self.confirmed@.len() == 0 && work@ =~= seq![new_hint] && budget >= 2),
                isolated_atom(old(self), new_hint) ==> (self.hints@ == old(self).hints@
                    && self.confirmed@ == old(self).confirmed@ && work@ =~= seq![new_hint]
                    && budget >= 1) || (work@.len() == 0 && self.confirmed@.contains(
                    new_hint.squares@[0],
                ) && self.resolves_within(
                    self.hints@.len() as int,
                    (new_hint.squares@[0], status_of(new_hint.bombs as nat)),
                )),
                fresh_decomposition(old(self), new_hint) ==> (self.hints@.len() == 0
                    && self.confirmed@.len() == 0 && work@ =~= seq![new_hint] && budget
                    >= usize::MAX - 1) || ({
                    let b1 = if new_hint.bombs == 0 {
                        0usize
                    } else {
                        1usize
                    };
                    &&& all_atoms_of(self.hints@, new_hint, b1)
                    &&& all_atoms_of(work@, new_hint, b1)
                    &&& atom_cells_distinct(work@)
                    &&& atom_cells_disjoint(work@, self.hints@)
                    &&& squares_covered(new_hint, self.hints@, work@)
                    &&& budget >= work@.len()
                }),
            decreases budget,
        {
            budget -= 1;
            let ghost work_before = work@;
            let cur = work.pop().unwrap();
            proof {
                assert(work_before =~= work@.push(cur));
                assert forall|mines: Set<usize>|
                    #[trigger] admits(old(self).hints@, new_hint, mines) implies models(
                    mines,
                    work@,
                ) && sat(mines, cur) by {
                    lemma_models_push(mines, work@, cur);
                }
            }
            // An emptied hint carries no information.
            if cur.is_empty() {
                continue;
            }
            if cur.squares.len() != 1 {
                if cur.bombs == cur.squares.len() {
                    // Every square is a mine: decompose into atomic hints.
                    let ghost work_pre = work@;
                    let mut j: usize = 0;
                    while j < cur.squares.len()
                        invariant
                            self.wf(),
                            cur.wf(),
                            cur.bombs == cur.squares@.len(),
                            j <= cur.squares@.len(),
                            self.confirmed@.len() == 0 && work_pre.len() == 0 ==> work@.len()
                                == j && forall|k: int|
                                0 <= k < work@.len() ==> (#[trigger] work@[k]).squares@.len()
                                    == 1 && work@[k].bombs == 1 && work@[k].squares@[0]
                                    == cur.squares@[k],
                            forall|k: int| 0 <= k < work@.len() ==> (#[trigger] work@[k]).wf(),
                            forall|c: usize|
                                old(self).confirmed@.contains(c)
                                    ==> self.confirmed@.contains(c),
                            forall|mines: Set<usize>|
                                #[trigger] admits(old(self).hints@, new_hint, mines) ==> models(
                                    mines,
                                    self.hints@,
                                ) && models(mines, work@) && sat(mines, cur),
                        decreases cur.squares@.len() - j,
                    {
                        let sq = cur.squares[j];
                        if !cells::vec_contains(&self.confirmed, sq) {
                            let atom = Self::atomic(sq, 1);
                            let ghost atom_g = atom;
                            let ghost wb = work@;
                            work.push(atom);
                            proof {
                                assert(cur.squares@.contains(sq));
                                assert forall|mines: Set<usize>|
                                    #[trigger] admits(old(self).hints@, new_hint, mines)
                                    implies models(mines, work@) by {
                                    lemma_full_sound(mines, cur, sq);
                                    lemma_atomic_sat(mines, atom_g);
                                    lemma_models_push(mines, wb, atom_g);
                                }
                            }
                        }
                        j += 1;
                    }
                    proof {
                        if fresh_decomposition(old(self), new_hint) {
                            assert(cur == new_hint);
                            assert forall|q: int|
                                0 <= q < new_hint.squares@.len() implies (exists|k: int|
                                0 <= k < work@.len() && (#[trigger] work@[k]).squares@.len() == 1
                                    && work@[k].squares@[0] == #[trigger] new_hint.squares@[q]) by {
                                assert(work@[q].squares@[0] == new_hint.squares@[q]);
                            }
                        }
                    }
                    continue;
                }
                if cur.bombs == 0 {
                    // Every square is safe: decompose into atomic hints. The
                    // pieces go back onto the same worklist, so the depth of
                    // re-entry stays bounded by the cell count.
                    let ghost work_pre = work@;
                    let mut j: usize = 0;
                    while j < cur.squares.len()
                        invariant
                            self.wf(),
                            cur.wf(),
                            cur.bombs == 0,
                            j <= cur.squares@.len(),
                            self.confirmed@.len() == 0 && work_pre.len() == 0 ==> work@.len()
                                == j && forall|k: int|
                                0 <= k < work@.len() ==> (#[trigger] work@[k]).squares@.len()
                                    == 1 && work@[k].bombs == 0 && work@[k].squares@[0]
                                    == cur.squares@[k],
                            forall|k: int| 0 <= k < work@.len() ==> (#[trigger] work@[k]).wf(),
                            forall|c: usize|
                                old(self).confirmed@.contains(c)
                                    ==> self.confirmed@.contains(c),
                            forall|mines: Set<usize>|
                                #[trigger] admits(old(self).hints@, new_hint, mines) ==> models(
                                    mines,
                                    self.hints@,
                                ) && models(mines, work@) && sat(mines, cur),
                        decreases cur.squares@.len() - j,
                    {
                        let sq = cur.squares[j];
                        if !cells::vec_contains(&self.confirmed, sq) {
                            let atom = Self::atomic(sq, 0);
                            let ghost atom_g = atom;
                            let ghost wb = work@;
                            work.push(atom);
                            proof {
                                assert(cur.squares@.contains(sq));
                                assert forall|mines: Set<usize>|
                                    #[trigger] admits(old(self).hints@, new_hint, mines)
                                    implies models(mines, work@) by {
                                    lemma_zero_sound(mines, cur, sq);
                                    lemma_atomic_sat(mines, atom_g);
                                    lemma_models_push(mines, wb, atom_g);
                                }
                            }
                        }
                        j += 1;
                    }
                    proof {
                        if fresh_decomposition(old(self), new_hint) {
                            assert(cur == new_hint);
                            assert forall|q: int|
                                0 <= q < new_hint.squares@.len() implies (exists|k: int|
                                0 <= k < work@.len() && (#[trigger] work@[k]).squares@.len() == 1
                                    && work@[k].squares@[0] == #[trigger] new_hint.squares@[q]) by {
                                assert(work@[q].squares@[0] == new_hint.squares@[q]);
                            }
                        }
                    }
                    continue;
                }
            }
            // Scan the stored hints against the working hint.
            let ghost scan_len = self.hints@.len();
            let ghost scan_hints0 = self.hints@;
            let ghost scan_work0 = work@;
            let mut idx: usize = 0;
            let mut handled = false;
            proof {
                if fresh_decomposition(old(self), new_hint) {
                    assert(work_before[work_before.len() - 1] == cur);
                }
            }
            while idx < self.hints.len() && !handled
                invariant
                    self.wf(),
                    cur.wf(),
                    cur.squares@.len() > 0,
                    self.hints@.len() == scan_len,
                    scan_len == 0 ==> !handled,
                    isolated_atom(old(self), new_hint) ==> self.hints@ == old(self).hints@
                        && work@ == scan_work0 && !handled && cur.squares@.len() == 1
                        && cur.squares@[0] == new_hint.squares@[0],
                    fresh_decomposition(old(self), new_hint) ==> ({
                        let b1 = if new_hint.bombs == 0 {
                            0usize
                        } else {
                            1usize
                        };
                        &&& self.hints@ == scan_hints0
                        &&& work@ == scan_work0
                        &&& !handled
                        &&& all_atoms_of(self.hints@, new_hint, b1)
                        &&& cur.squares@.len() == 1
                        &&& cur.bombs == b1
                        &&& new_hint.squares@.contains(cur.squares@[0])
                        &&& forall|i: int|
                            0 <= i < self.hints@.len() ==> (#[trigger] self.hints@[i]).squares@[0]
                                != cur.squares@[0]
                    }),
                    idx <= self.hints@.len(),
                    forall|k: int| 0 <= k < work@.len() ==> (#[trigger] work@[k]).wf(),
                    forall|c: usize|
                        old(self).confirmed@.contains(c) ==> self.confirmed@.contains(c),
                    forall|mines: Set<usize>|
                        #[trigger] admits(old(self).hints@, new_hint, mines) ==> models(
                            mines,
                            self.hints@,
                        ) && models(mines, work@) && sat(mines, cur),
                    !handled ==> forall|j: int|
                        0 <= j < idx && (#[trigger] self.hints@[j]).squares@.len() > 0
                            ==> self.hints@[j].sq() != cur.sq(),
                decreases self.hints@.len() - idx + (if handled { 0int } else { 1int }),
            {
                if self.hints[idx].is_empty() {
                    idx += 1;
                    continue;
                }
                proof {
                    cells::lemma_unique_len(self.hints@[idx as int].squares@);
                    cells::lemma_unique_len(cur.squares@);
                }
                let ord = self.hints[idx].compare(&cur);
                if ord == HintOrder::Equal {
                    // Identical square sets: the hint is already known. On a
                    // fresh decomposition the atoms sit on distinct cells,
                    // so this and the other merging branches never fire.
                    proof {
                        if fresh_decomposition(old(self), new_hint) {
                            let c = cur.squares@[0];
                            assert(cur.squares@.contains(c));
                            assert(self.hints@[idx as int].sq().contains(c));
                            assert(self.hints@[idx as int].squares@.contains(c));
                            let k = choose|k: int|
                                0 <= k < self.hints@[idx as int].squares@.len()
                                    && self.hints@[idx as int].squares@[k] == c;
                            assert(false);
                        }
                        if isolated_atom(old(self), new_hint) {
                            let c = cur.squares@[0];
                            assert(cur.squares@.contains(c));
                            assert(self.hints@[idx as int].sq().contains(c));
                            assert(self.hints@[idx as int].squares@.contains(c));
                            assert(false);
                        }
                    }
                    handled = true;
                } else if ord == HintOrder::Less {
                    // The stored hint is a strict sub-constraint: retry with
                    // the remainder. Bomb counts that cannot fit signal
                    // mutually inconsistent hints; the remainder is dropped.
                    proof {
                        if fresh_decomposition(old(self), new_hint) {
                            let c = self.hints@[idx as int].squares@[0];
                            assert(self.hints@[idx as int].squares@.contains(c));
                            assert(cur.sq().contains(c));
                            assert(cur.squares@.contains(c));
                            let k = choose|k: int|
                                0 <= k < cur.squares@.len() && cur.squares@[k] == c;
                            assert(false);
                        }
                        if isolated_atom(old(self), new_hint) {
                            let e = self.hints@[idx as int].squares@[0];
                            assert(self.hints@[idx as int].squares@.contains(e));
                            assert(cur.sq().contains(e));
                            assert(cur.squares@.contains(e));
                            let k = choose|k: int|
                                0 <= k < cur.squares@.len() && cur.squares@[k] == e;
                            assert(self.hints@[idx as int].squares@.contains(cur.squares@[0]));
                            assert(false);
                        }
                    }
                    let sb = self.hints[idx].bombs;
                    let slen = self.hints[idx].squares.len();
                    proof {
                        cells::lemma_subset_len(self.hints@[idx as int].sq(), cur.sq());
                    }
                    if sb <= cur.bombs && cur.bombs - sb <= cur.squares.len() - slen {
                        let ghost stored_g = self.hints@[idx as int];
                        let d = cur.difference(&self.hints[idx]);
                        let ghost d_g = d;
                        let ghost wb = work@;
                        work.push(d);
                        proof {
                            assert forall|mines: Set<usize>|
                                #[trigger] admits(old(self).hints@, new_hint, mines)
                                implies models(mines, work@) by {
                                assert(sat(mines, stored_g));
                                lemma_difference_sound(mines, cur, stored_g, d_g);
                                lemma_models_push(mines, wb, d_g);
                            }
                        }
                    }
                    handled = true;
                } else {
                    let inter_opt = self.hints[idx].intersection(&cur);
                    let mut split = false;
                    if let Some(inter) = inter_opt {
                        if !inter.is_empty() {
                            // Both sides agree on the overlap: split into
                            // three disjoint pieces and retire the stored
                            // hint, which they fully subsume.
                            proof {
                                if fresh_decomposition(old(self), new_hint) {
                                    let e = inter.squares@[0];
                                    assert(inter.squares@.contains(e));
                                    assert(inter.sq().contains(e));
                                    assert(self.hints@[idx as int].squares@.contains(e));
                                    assert(cur.squares@.contains(e));
                                    let k1 = choose|k: int|
                                        0 <= k < self.hints@[idx as int].squares@.len()
                                            && self.hints@[idx as int].squares@[k] == e;
                                    let k2 = choose|k: int|
                                        0 <= k < cur.squares@.len() && cur.squares@[k] == e;
                                    assert(false);
                                }
                                if isolated_atom(old(self), new_hint) {
                                    let e = inter.squares@[0];
                                    assert(inter.squares@.contains(e));
                                    assert(inter.sq().contains(e));
                                    assert(self.hints@[idx as int].squares@.contains(e));
                                    assert(cur.squares@.contains(e));
                                    let k2 = choose|k: int|
                                        0 <= k < cur.squares@.len() && cur.squares@[k] == e;
                                    assert(self.hints@[idx as int].squares@.contains(
                                        cur.squares@[0],
                                    ));
                                    assert(false);
                                }
                            }
                            let ghost stored_g = self.hints@[idx as int];
                            let ghost hints_before = self.hints@;
                            let ghost inter_g = inter;
                            let d1 = self.hints[idx].difference(&inter);
                            let d2 = cur.difference(&inter);
                            let ghost d1_g = d1;
                            let ghost d2_g = d2;
                            let ghost wb = work@;
                            work.push(d1);
                            work.push(d2);
                            work.push(inter);
                            self.hints[idx].clear();
                            proof {
                                let cleared = self.hints@[idx as int];
                                assert(self.hints@ == hints_before.update(idx as int, cleared));
                                assert(work@ == wb.push(d1_g).push(d2_g).push(inter_g));
                                assert forall|mines: Set<usize>|
                                    #[trigger] admits(old(self).hints@, new_hint, mines)
                                    implies models(mines, self.hints@) && models(
                                    mines,
                                    work@,
                                ) by {
                                    assert(sat(mines, stored_g));
                                    lemma_intersection_sound(mines, stored_g, cur, inter_g);
                                    lemma_difference_sound(mines, stored_g, inter_g, d1_g);
                                    lemma_difference_sound(mines, cur, inter_g, d2_g);
                                    lemma_models_push(mines, wb, d1_g);
                                    lemma_models_push(mines, wb.push(d1_g), d2_g);
                                    lemma_models_push(mines, wb.push(d1_g).push(d2_g), inter_g);
                                    lemma_empty_sat(mines, cleared);
                                    lemma_models_update(mines, hints_before, idx as int, cleared);
                                }
                            }
                            handled = true;
                            split = true;
                        }
                    }
                    if !split && ord == HintOrder::Greater {
                        // The working hint refines the stored one: keep only
                        // what the stored hint adds, and keep scanning, since
                        // the working hint may overlap more stored hints.
                        proof {
                            if fresh_decomposition(old(self), new_hint) {
                                let c = cur.squares@[0];
                                assert(cur.squares@.contains(c));
                                assert(self.hints@[idx as int].sq().contains(c));
                                assert(self.hints@[idx as int].squares@.contains(c));
                                let k = choose|k: int|
                                    0 <= k < self.hints@[idx as int].squares@.len()
                                        && self.hints@[idx as int].squares@[k] == c;
                                assert(false);
                            }
                            if isolated_atom(old(self), new_hint) {
                                let c = cur.squares@[0];
                                assert(cur.squares@.contains(c));
                                assert(self.hints@[idx as int].sq().contains(c));
                                assert(self.hints@[idx as int].squares@.contains(c));
                                assert(false);
                            }
                        }
                        let sb = self.hints[idx].bombs;
                        let slen = self.hints[idx].squares.len();
                        proof {
                            cells::lemma_subset_len(cur.sq(), self.hints@[idx as int].sq());
                        }
                        if cur.bombs <= sb && sb - cur.bombs <= slen - cur.squares.len() {
                            let ghost stored_g = self.hints@[idx as int];
                            let ghost hints_before = self.hints@;
                            let d = self.hints[idx].difference(&cur);
                            let ghost d_g = d;
                            let ghost wb = work@;
                            work.push(d);
                            self.hints[idx].clear();
                            proof {
                                let cleared = self.hints@[idx as int];
                                assert(self.hints@ == hints_before.update(idx as int, cleared));
                                assert forall|mines: Set<usize>|
                                    #[trigger] admits(old(self).hints@, new_hint, mines)
                                    implies models(mines, self.hints@) && models(
                                    mines,
                                    work@,
                                ) by {
                                    assert(sat(mines, stored_g));
                                    lemma_difference_sound(mines, stored_g, cur, d_g);
                                    lemma_models_push(mines, wb, d_g);
                                    lemma_empty_sat(mines, cleared);
                                    lemma_models_update(mines, hints_before, idx as int, cleared);
                                }
                            }
                        }
                    }
                }
                if !handled {
                    idx += 1;
                }
            }
            if !handled {
                // Genuinely new information: confirm it if atomic, store it,
                // and drop tombstones.
                if cur.squares.len() == 1 {
                    let c0 = cur.squares[0];
                    if !cells::vec_contains(&self.confirmed, c0) {
                        self.confirmed.push(c0);
                    }
                }
                let ghost hints_before = self.hints@;
                self.hints.push(cur);
                proof {
                    assert forall|mines: Set<usize>|
                        #[trigger] admits(old(self).hints@, new_hint, mines) implies models(
                        mines,
                        self.hints@,
                    ) by {
                        lemma_models_push(mines, hints_before, cur);
                    }
                }
                let ghost before_compact = self.hints@;
                self.compact();
                proof {
                    assert forall|mines: Set<usize>|
                        #[trigger] admits(old(self).hints@, new_hint, mines) implies models(
                        mines,
                        self.hints@,
                    ) by {
                        lemma_models_contained(mines, self.hints@, before_compact);
                    }
                    assert(before_compact[before_compact.len() - 1] == cur);
                    assert(self.hints@.contains(cur));
                    assert(self.hints@.len() > 0);
                    if isolated_atom(old(self), new_hint) {
                        let i2 = choose|i2: int|
                            0 <= i2 < self.hints@.len() && self.hints@[i2] == cur;
                        assert(self.resolves_within(
                            self.hints@.len() as int,
                            (new_hint.squares@[0], status_of(new_hint.bombs as nat)),
                        ));
                    }
                    if fresh_decomposition(old(self), new_hint) {
                        let b1: usize = if new_hint.bombs == 0 {
                            0
                        } else {
                            1
                        };
                        assert(before_compact == scan_hints0.push(cur));
                        assert(work@ == work_before.drop_last());
                        assert(all_atoms_of(before_compact, new_hint, b1));
                        assert forall|k: int|
                            0 <= k < self.hints@.len() implies (
                        #[trigger] self.hints@[k]).squares@.len() == 1 && self.hints@[k].bombs
                            == b1 && new_hint.squares@.contains(self.hints@[k].squares@[0]) by {
                            let k0 = choose|k0: int|
                                0 <= k0 < before_compact.len() && before_compact[k0]
                                    == self.hints@[k];
                        }
                        assert forall|k: int, i: int|
                            0 <= k < work@.len() && 0 <= i < self.hints@.len() implies (
                        #[trigger] work@[k]).squares@[0] != (
                        #[trigger] self.hints@[i]).squares@[0] by {
                            assert(work@[k] == work_before[k]);
                            let k0 = choose|k0: int|
                                0 <= k0 < before_compact.len() && before_compact[k0]
                                    == self.hints@[i];
                            if k0 < scan_hints0.len() {
                                assert(self.hints@[i] == scan_hints0[k0]);
                            } else {
                                assert(self.hints@[i] == cur);
                                assert(work_before[work_before.len() - 1] == cur);
                            }
                        }
                        assert forall|q: int|
                            0 <= q < new_hint.squares@.len() implies (exists|i: int|
                            0 <= i < self.hints@.len() && (#[trigger] self.hints@[i]).squares@.len()
                                == 1 && self.hints@[i].squares@[0] == new_hint.squares@[q]) || (
                        exists|k: int|
                            0 <= k < work@.len() && (#[trigger] work@[k]).squares@.len() == 1
                                && work@[k].squares@[0] == #[trigger] new_hint.squares@[q]) by {
                            if exists|i: int|
                                0 <= i < scan_hints0.len() && (
                                #[trigger] scan_hints0[i]).squares@.len() == 1
                                    && scan_hints0[i].squares@[0] == new_hint.squares@[q] {
                                let i = choose|i: int|
                                    0 <= i < scan_hints0.len() && (
                                    #[trigger] scan_hints0[i]).squares@.len() == 1
                                        && scan_hints0[i].squares@[0] == new_hint.squares@[q];
                                assert(before_compact[i] == scan_hints0[i]);
                                assert(scan_hints0[i].squares@.len() > 0);
                                assert(self.hints@.contains(scan_hints0[i]));
                                let i2 = choose|i2: int|
                                    0 <= i2 < self.hints@.len() && self.hints@[i2]
                                        == scan_hints0[i];
                            } else {
                                let k = choose|k: int|
                                    0 <= k < work_before.len() && (
                                    #[trigger] work_before[k]).squares@.len() == 1
                                        && work_before[k].squares@[0] == new_hint.squares@[q];
                                if k < work_before.len() - 1 {
                                    assert(work@[k] == work_before[k]);
                                } else {
                                    assert(work_before[k] == cur);
                                    let i2 = choose|i2: int|
                                        0 <= i2 < self.hints@.len() && self.hints@[i2] == cur;
                                }
                            }
                        }
                    }
                }
            }
        }
        proof {
            if fresh_decomposition(old(self), new_hint) {
                let b1: usize = if new_hint.bombs == 0 {
                    0
                } else {
                    1
                };
                cells::lemma_unique_len(new_hint.squares@);
                assert forall|mines: Set<usize>| models(mines, self.hints@) implies #[trigger]
                admits(old(self).hints@, new_hint, mines) by {
                    assert forall|q: int|
                        0 <= q < new_hint.squares@.len() implies (if b1 == 1 {
                        mines.contains(#[trigger] new_hint.squares@[q])
                    } else {
                        !mines.contains(new_hint.squares@[q])
                    }) by {
                        let i = choose|i: int|
                            0 <= i < self.hints@.len() && (#[trigger] self.hints@[i]).squares@.len()
                                == 1 && self.hints@[i].squares@[0] == new_hint.squares@[q];
                        assert(sat(mines, self.hints@[i]));
                        lemma_atomic_sat(mines, self.hints@[i]);
                    }
                    if b1 == 1 {
                        assert(new_hint.sq().intersect(mines) =~= new_hint.sq()) by {
                            assert forall|e: usize| new_hint.sq().contains(e) implies mines.contains(
                                e,
                            ) by {
                                let q = choose|q: int|
                                    0 <= q < new_hint.squares@.len() && new_hint.squares@[q] == e;
                            }
                        }
                    } else {
                        assert(new_hint.sq().intersect(mines) =~= Set::<usize>::empty()) by {
                            assert forall|e: usize|
                                !(#[trigger] new_hint.sq().intersect(mines).contains(e)) by {
                                if new_hint.sq().contains(e) {
                                    let q = choose|q: int|
                                        0 <= q < new_hint.squares@.len() && new_hint.squares@[q]
                                            == e;
                                }
                            }
                        }
                    }
                    assert(sat(mines, new_hint));
                }
            }
        }
    }

    /// Whether `p` records a live atomic hint among the first `n` stored
    /// hints, with the status that hint assigns.
    pub open spec fn resolves_within(&self, n: int, p: (usize, ResultState)) -> bool {
        exists|i: int|
            0 <= i < n && (#[trigger] self.hints@[i]).squares@.len() == 1
                && self.hints@[i].squares@[0] == p.0
                && p.1 == status_of(self.hints@[i].bombs as nat)
    }

    /// Whether every atomic hint among the first `n` stored hints has its
    /// entry in `r`.
    pub open spec fn covers_atomics(&self, n: int, r: Seq<(usize, ResultState)>) -> bool {
        forall|i: int|
            0 <= i < n && (#[trigger] self.hints@[i]).squares@.len() == 1 ==> r.contains(
                (self.hints@[i].squares@[0], status_of(self.hints@[i].bombs as nat)),
            )
    }

    /// The resolved cells: one entry per live atomic hint, `Safe` for a
    /// zero-bomb hint and `Danger` for a one-bomb hint. Keys are unique.
    pub fn result(&self) -> (r: Vec<(usize, ResultState)>)
        requires
            self.wf(),
        ensures
            forall|k: int|
                0 <= k < r@.len() ==> self.resolves_within(
                    self.hints@.len() as int,
                    #[trigger] r@[k],
                ),
            self.covers_atomics(self.hints@.len() as int, r@),
            forall|k1: int, k2: int|
                0 <= k1 < r@.len() && 0 <= k2 < r@.len() && k1 != k2 ==> r@[k1].0 != r@[k2].0,
    {
        let mut r: Vec<(usize, ResultState)> = Vec::new();
        let mut i: usize = 0;
        while i < self.hints.len()
            invariant
                self.wf(),
                i <= self.hints@.len(),
                forall|k: int|
                    0 <= k < r@.len() ==> self.resolves_within(i as int, #[trigger] r@[k]),
                self.covers_atomics(i as int, r@),
                forall|k1: int, k2: int|
                    0 <= k1 < r@.len() && 0 <= k2 < r@.len() && k1 != k2
                        ==> r@[k1].0 != r@[k2].0,
            decreases self.hints@.len() - i,
        {
            let ghost old_r = r@;
            if self.hints[i].squares.len() == 1 {
                let c0 = self.hints[i].squares[0];
                let st = if self.hints[i].bombs == 0 {
                    ResultState::Safe
                } else {
                    ResultState::Danger
                };
                proof {
                    assert(st == status_of(self.hints@[i as int].bombs as nat));
                    assert forall|k: int| 0 <= k < r@.len() implies r@[k].0 != c0 by {
                        let j = choose|j: int|
                            0 <= j < i && (#[trigger] self.hints@[j]).squares@.len() == 1
                                && self.hints@[j].squares@[0] == r@[k].0 && r@[k].1 == status_of(
                                self.hints@[j].bombs as nat,
                            );
                        if r@[k].0 == c0 {
                            assert(self.hints@[j].sq() =~= self.hints@[i as int].sq());
                        }
                    }
                }
                r.push((c0, st));
                proof {
                    assert(r@ == old_r.push((c0, st)));
                    assert(r@[r@.len() - 1] == (c0, st));
                    assert(self.resolves_within(i + 1, (c0, st)));
                }
            }
            proof {
                assert forall|k: int| 0 <= k < r@.len() implies self.resolves_within(
                    i + 1,
                    #[trigger] r@[k],
                ) by {
                    if k < old_r.len() && old_r[k] == r@[k] {
                        lemma_resolves_mono(self, i as int, i + 1, r@[k]);
                    }
                }
                assert forall|j: int|
                    0 <= j < i + 1 && (#[trigger] self.hints@[j]).squares@.len() == 1
                    implies r@.contains(
                    (self.hints@[j].squares@[0], status_of(self.hints@[j].bombs as nat)),
                ) by {
                    if j < i {
                        assert(old_r.contains(
                            (self.hints@[j].squares@[0], status_of(self.hints@[j].bombs as nat)),
                        ));
                        if r@ != old_r {
                            assert(r@ == old_r.push(r@[r@.len() - 1]));
                        }
                    }
                }
            }
            i += 1;
        }
        r
    }

    /// A one-cell hint: `bombs` is 0 (safe) or 1 (mine).
    fn atomic(square: usize, bombs: usize) -> (r: Hint)
        requires
            bombs <= 1,
        ensures
            r.squares@ =~= seq![square],
            r.bombs == bombs,
            r.wf(),
    {
        let mut v: Vec<usize> = Vec::new();
        v.push(square);
        Hint::new(v, bombs)
    }

    /// Drops the tombstones left behind by propagation.
    fn compact(&mut self)
        requires
            old(self).wf(),
        ensures
            final(self).wf(),
            final(self).confirmed == old(self).confirmed,
            forall|i: int|
                0 <= i < old(self).hints@.len()
                    && (#[trigger] old(self).hints@[i]).squares@.len() > 0
                    ==> final(self).hints@.contains(old(self).hints@[i]),
            forall|i: int|
                0 <= i < final(self).hints@.len()
                    ==> old(self).hints@.contains(#[trigger] final(self).hints@[i])
                        && final(self).hints@[i].squares@.len() > 0,
    {
        let ghost orig = self.hints@;
        proof {
            assert(orig.take(orig.len() as int) =~= orig);
        }
        let mut kept: Vec<Hint> = Vec::new();
        while self.hints.len() > 0
            invariant
                self.wf(),
                old(self).wf(),
                orig == old(self).hints@,
                self.hints@.len() <= orig.len(),
                self.hints@ == orig.take(self.hints@.len() as int),
                self.confirmed == old(self).confirmed,
                forall|a: int|
                    0 <= a < kept@.len() ==> exists|j: int|
                        self.hints@.len() <= j < orig.len() && kept@[a] == orig[j]
                            && (#[trigger] kept@[a]).squares@.len() > 0,
                forall|j: int|
                    self.hints@.len() <= j < orig.len() && (#[trigger] orig[j]).squares@.len() > 0
                        ==> kept@.contains(orig[j]),
                forall|a: int, b: int|
                    0 <= a < kept@.len() && 0 <= b < kept@.len() && a != b
                        ==> (#[trigger] kept@[a]).sq() != (#[trigger] kept@[b]).sq(),
            decreases self.hints@.len(),
        {
            let ghost pre = self.hints@;
            let h = self.hints.pop().unwrap();
            proof {
                assert(pre == orig.take(pre.len() as int));
                assert(pre.drop_last() =~= orig.take(pre.len() - 1));
                assert(h == pre[pre.len() - 1]);
                assert(h == orig[pre.len() - 1]);
                assert(forall|i: int| 0 <= i < orig.len() ==> orig[i] == #[trigger] old(
                    self,
                ).hints@[i]);
            }
            if !h.is_empty() {
                proof {
                    let ghost jh = pre.len() - 1;
                    assert forall|a: int| 0 <= a < kept@.len() implies kept@[a].sq() != h.sq() by {
                        let j = choose|j: int|
                            pre.len() <= j < orig.len() && kept@[a] == orig[j]
                                && kept@[a].squares@.len() > 0;
                        assert(old(self).hints@[j].sq() != old(self).hints@[jh].sq());
                    }
                }
                kept.push(h);
            }
        }
        proof {
            assert(orig =~= old(self).hints@);
        }
        self.hints = kept;
    }
}

impl Default for Solver {
    /// The empty knowledge base, as the oracle constructs it.
    fn default() -> (r: Self)
        ensures
            r.hints@.len() == 0,
            r.confirmed@.len() == 0,
            r.wf(),
    {
        Solver::new()
    }
}

/// The status an atomic hint assigns to its single cell.
pub open spec fn status_of(bombs: nat) -> ResultState {
    if bombs == 0 {
        ResultState::Safe
    } else {
        ResultState::Danger
    }
}

/// A record of an atomic hint among the first `n1` hints also lies among
/// the first `n2` when `n1 <= n2`.
pub proof fn lemma_resolves_mono(s: &Solver, n1: int, n2: int, p: (usize, ResultState))
    requires
        s.resolves_within(n1, p),
        n1 <= n2,
    ensures
        s.resolves_within(n2, p),
{
    let j = choose|j: int|
        0 <= j < n1 && (#[trigger] s.hints@[j]).squares@.len() == 1 && s.hints@[j].squares@[0]
            == p.0 && p.1 == status_of(s.hints@[j].bombs as nat);
    assert(0 <= j < n2 && s.hints@[j].squares@.len() == 1);
}

/// The engine's soundness law: any mine assignment that meets every hint
/// in the knowledge base agrees with every cell the solver has resolved —
/// a `Danger` cell is mined, a `Safe` cell is not. Together with
/// `add_hint`'s guarantee that ingestion only ever narrows the assignments
/// a knowledge base admits, no derived conclusion can be wrong for a board
/// whose true placement meets the ingested hints.
pub proof fn lemma_result_sound(s: &Solver, mines: Set<usize>, p: (usize, ResultState))
    requires
        s.wf(),
        models(mines, s.hints@),
        s.resolves_within(s.hints@.len() as int, p),
    ensures
        p.1 == ResultState::Danger ==> mines.contains(p.0),
        p.1 == ResultState::Safe ==> !mines.contains(p.0),
{
    let i = choose|i: int|
        0 <= i < s.hints@.len() && (#[trigger] s.hints@[i]).squares@.len() == 1
            && s.hints@[i].squares@[0] == p.0 && p.1 == status_of(s.hints@[i].bombs as nat);
    assert(sat(mines, s.hints@[i]));
    assert(s.hints@[i].bombs <= 1);
    lemma_atomic_sat(mines, s.hints@[i]);
}

} // verus!
