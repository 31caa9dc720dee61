//! The two basic techniques: naked singles and hidden singles.

use vstd::prelude::*;
use crate::grid::same_unit;
use crate::rules::{in_grid, is_digit, sees};
use crate::solver::patterns::{
    applied, confined, first_placeable, in_unit, is_placing, makes_progress, placed_upto,
    placement, places, same_live,
};
use crate::solver::{HumanStyleSolver, SolverState};
use crate::types::{SolvingTechnique, BOARD_SIZE};

verus! {

/// A placement is a digit, and the technique places it.
pub proof fn lemma_placement_places(t: SolvingTechnique, st: SolverState, c: int, from: int)
    requires
        1 <= from,
    ensures
        first_placeable(t, st, c, from) is Some ==> from <= first_placeable(t, st, c, from)->0
            && is_digit(first_placeable(t, st, c, from)->0 as int) && places(
            t,
            st,
            c,
            first_placeable(t, st, c, from)->0 as int,
        ),
        first_placeable(t, st, c, from) is None ==> forall|x: int|
            from <= x && is_digit(x) ==> !places(t, st, c, x),
    decreases 10 - from,
{
    if 1 <= from <= 9 && !places(t, st, c, from) {
        lemma_placement_places(t, st, c, from + 1);
    }
}

impl HumanStyleSolver {
    /// Whether two cells hold the same candidates.
    pub fn same_candidates(&self, a: usize, b: usize) -> (same: bool)
        requires
            self.wf(),
            a < 81,
            b < 81,
        ensures
            same == same_live(self@, a as int, b as int),
    {
        let mut x: u8 = 1;
        while x <= 9
            invariant
                self.wf(),
                a < 81,
                b < 81,
                1 <= x <= 10,
                forall|y: int|
                    1 <= y < x ==> (#[trigger] self@.live.contains((a as int, y))
                        <==> self@.live.contains((b as int, y))),
            decreases 10 - x,
        {
            if self.is_live(a, x) != self.is_live(b, x) {
                return false;
            }
            x += 1;
        }
        true
    }

    /// Whether digit `x` is live in no cell of the unit of `c` other than
    /// `c` and `b`.
    pub fn digit_confined(&self, kind: u8, c: usize, b: usize, x: u8) -> (alone: bool)
        requires
            self.wf(),
            c < 81,
            b < 81,
            1 <= x <= 9,
        ensures
            alone == confined(self@, kind as int, c as int, b as int, x as int),
    {
        let mut j: usize = 0;
        while j < BOARD_SIZE
            invariant
                self.wf(),
                c < 81,
                b < 81,
                1 <= x <= 9,
                j <= 81,
                forall|i: int|
                    0 <= i < j && i != c && i != b && #[trigger] in_unit(kind as int, c as int, i)
                        ==> !self@.live.contains((i, x as int)),
            decreases 81 - j,
        {
            if j != c && j != b && same_unit(kind, c, j) && self.is_live(j, x) {
                return false;
            }
            j += 1;
        }
        true
    }

    /// Whether technique `t` decides that digit `x` goes into cell `c`.
    pub fn places_digit(&self, t: SolvingTechnique, c: usize, x: u8) -> (decided: bool)
        requires
            self.wf(),
            c < 81,
            1 <= x <= 9,
        ensures
            decided == places(t, self@, c as int, x as int),
    {
        match t {
            SolvingTechnique::NakedSingle => self.is_live(c, x) && self.live_count(c) == 1,
            SolvingTechnique::HiddenSingle => {
                self.is_live(c, x) && (self.digit_confined(0, c, c, x) || self.digit_confined(
                    1,
                    c,
                    c,
                    x,
                ) || self.digit_confined(2, c, c, x))
            },
            _ => false,
        }
    }

    /// The digit that a sweep of technique `t` puts into cell `c`, if any.
    pub fn placement_for(&self, t: SolvingTechnique, c: usize) -> (digit: Option<u8>)
        requires
            self.wf(),
            c < 81,
        ensures
            digit == placement(t, self@, c as int),
    {
        let mut x: u8 = 1;
        while x <= 9
            invariant
                self.wf(),
                c < 81,
                1 <= x <= 10,
                placement(t, self@, c as int) == first_placeable(t, self@, c as int, x as int),
            decreases 10 - x,
        {
            if self.places_digit(t, c, x) {
                return Some(x);
            }
            x += 1;
        }
        None
    }

    /// The placements of a sweep of technique `t`, cell by cell.
    fn plan_placements(&self, t: SolvingTechnique) -> (plan: Vec<Option<u8>>)
        requires
            self.wf(),
        ensures
            plan@.len() == 81,
            forall|c: int| 0 <= c < 81 ==> plan@[c] == placement(t, self@, c),
    {
        let mut plan: Vec<Option<u8>> = Vec::new();
        let mut c: usize = 0;
        while c < BOARD_SIZE
            invariant
                self.wf(),
                c <= 81,
                plan@.len() == c,
                forall|i: int| 0 <= i < c ==> plan@[i] == placement(t, self@, i),
            decreases 81 - c,
        {
            let digit = self.placement_for(t, c);
            plan.push(digit);
            c += 1;
        }
        plan
    }

    /// One sweep of a placing technique: every cell that the technique
    /// decides on the state as it stands is filled, and each placed digit is
    /// struck from the cells that see it.
    fn sweep_placements(&mut self, t: SolvingTechnique) -> (progress: bool)
        requires
            old(self).wf(),
            is_placing(t),
        ensures
            final(self).wf(),
            progress == makes_progress(t, old(self)@),
            final(self)@ == applied(t, old(self)@),
    {
        let plan = self.plan_placements(t);
        let ghost st = self@;
        let mut progress = false;
        let mut c: usize = 0;
        while c < BOARD_SIZE
            invariant
                self.wf(),
                st.wf(),
                is_placing(t),
                c <= 81,
                plan@.len() == 81,
                forall|i: int| 0 <= i < 81 ==> plan@[i] == placement(t, st, i),
                progress == exists|i: int| 0 <= i < c && (#[trigger] placement(t, st, i)) is Some,
                !progress ==> self@ == st,
                progress ==> self@ == placed_upto(t, st, c as int),
            decreases 81 - c,
        {
            match plan[c] {
                Some(d) => {
                    proof {
                        lemma_placement_places(t, st, c as int, 1);
                        assert(st.live.contains((c as int, d as int)));
                        if !progress {
                            lemma_nothing_placed(t, st, c as int);
                        }
                    }
                    self.place_number(c, d);
                    proof {
                        lemma_place_next(t, st, c as int);
                    }
                    progress = true;
                },
                None => {
                    proof {
                        if progress {
                            lemma_skip_next(t, st, c as int);
                        }
                    }
                },
            }
            c += 1;
        }
        if progress {
            self.record_technique_used(t);
        }
        progress
    }

    /// Naked singles: every cell with exactly one candidate is filled with it.
    pub fn find_naked_singles(&mut self) -> (progress: bool)
        requires
            old(self).wf(),
        ensures
            final(self).wf(),
            progress == makes_progress(SolvingTechnique::NakedSingle, old(self)@),
            final(self)@ == applied(SolvingTechnique::NakedSingle, old(self)@),
    {
        self.sweep_placements(SolvingTechnique::NakedSingle)
    }

    /// Hidden singles: a digit that has a single place left in a row, a
    /// column or a box is put there.
    pub fn find_hidden_singles(&mut self) -> (progress: bool)
        requires
            old(self).wf(),
        ensures
            final(self).wf(),
            progress == makes_progress(SolvingTechnique::HiddenSingle, old(self)@),
            final(self)@ == applied(SolvingTechnique::HiddenSingle, old(self)@),
    {
        self.sweep_placements(SolvingTechnique::HiddenSingle)
    }
}

/// While no cell before `n` receives a digit, the state is as it was.
pub proof fn lemma_nothing_placed(t: SolvingTechnique, st: SolverState, n: int)
    requires
        st.wf(),
        forall|i: int| 0 <= i < n ==> (#[trigger] placement(t, st, i)) is None,
    ensures
        placed_upto(t, st, n) == st,
{
    let next = placed_upto(t, st, n);
    assert(next.board =~= st.board);
    assert forall|p: (int, int)| next.live.contains(p) == st.live.contains(p) by {
        assert(p == (p.0, p.1));
    }
    assert(next.live =~= st.live);
}

/// Passing a cell without a placement changes nothing.
pub proof fn lemma_skip_next(t: SolvingTechnique, st: SolverState, n: int)
    requires
        st.wf(),
        in_grid(n),
        placement(t, st, n) is None,
    ensures
        placed_upto(t, st, n + 1) == placed_upto(t, st, n),
{
    let a = placed_upto(t, st, n);
    let b = placed_upto(t, st, n + 1);
    assert(a.board =~= b.board);
    assert forall|p: (int, int)| a.live.contains(p) == b.live.contains(p) by {
        if st.live.contains(p) {
            if exists|j: int|
                0 <= j < n + 1 && sees(p.0, j) && #[trigger] placement(t, st, j) == Some(
                    p.1 as u8,
                ) {
                let j = choose|j: int|
                    0 <= j < n + 1 && sees(p.0, j) && #[trigger] placement(t, st, j) == Some(
                        p.1 as u8,
                    );
                assert(j < n);
            }
        }
    }
    assert(a.live =~= b.live);
}

/// Filling cell `n` with its placement leads from one partial sweep to the next.
pub proof fn lemma_place_next(t: SolvingTechnique, st: SolverState, n: int)
    requires
        st.wf(),
        in_grid(n),
        placement(t, st, n) is Some,
    ensures
        placed_upto(t, st, n).with_placed(n, placement(t, st, n)->0 as int) == placed_upto(
            t,
            st,
            n + 1,
        ),
{
    let d = placement(t, st, n)->0;
    let a = placed_upto(t, st, n).with_placed(n, d as int);
    let b = placed_upto(t, st, n + 1);
    lemma_placement_places(t, st, n, 1);
    assert(a.board =~= b.board);
    assert forall|p: (int, int)| a.live.contains(p) == b.live.contains(p) by {
        if st.live.contains(p) {
            assert(p == (p.0, p.1));
            assert(is_digit(p.1));
            if a.live.contains(p) {
                if exists|j: int|
                    0 <= j < n + 1 && sees(p.0, j) && #[trigger] placement(t, st, j) == Some(
                        p.1 as u8,
                    ) {
                    let j = choose|j: int|
                        0 <= j < n + 1 && sees(p.0, j) && #[trigger] placement(t, st, j) == Some(
                            p.1 as u8,
                        );
                    if j == n {
                        assert(p.1 == d);
                    }
                }
            }
            if b.live.contains(p) {
                if sees(p.0, n) && p.1 == d {
                    assert(placement(t, st, n) == Some(p.1 as u8));
                }
            }
        }
    }
    assert(a.live =~= b.live);
}

} // verus!
