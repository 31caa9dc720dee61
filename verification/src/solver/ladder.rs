//! Sweeps of the eliminating techniques, and the ladder that applies the
//! techniques, weakest first, until none makes progress.

use vstd::prelude::*;
use crate::rules::{complete, in_grid, is_digit};
use crate::solver::patterns::{
    applied, at_rest, first_rung, is_placing, ladder, makes_progress, pair_index, placement,
    round, run, strikes, struck_upto, swept,
};
use crate::solver::singles::lemma_placement_places;
use crate::solver::{lemma_total_bounds, lemma_total_monotone, HumanStyleSolver, SolverState};
use crate::types::{SolvingTechnique, BOARD_SIZE};

verus! {

/// Every live pair is a cell of the grid with a digit.
pub open spec fn live_in_range(st: SolverState) -> bool {
    forall|c: int, x: int| #[trigger] st.live.contains((c, x)) ==> in_grid(c) && is_digit(x)
}

/// A sweep only ever strikes live pairs.
pub proof fn lemma_swept_is_subset(t: SolvingTechnique, st: SolverState)
    ensures
        swept(t, st).live.subset_of(st.live),
        applied(t, st).live.subset_of(st.live),
{
}

/// A sweep that makes progress lowers the number of live pairs.
pub proof fn lemma_progress_lowers_total(t: SolvingTechnique, st: SolverState)
    requires
        live_in_range(st),
        makes_progress(t, st),
    ensures
        applied(t, st).total() < st.total(),
        live_in_range(applied(t, st)),
{
    let next = applied(t, st);
    lemma_swept_is_subset(t, st);
    lemma_total_monotone(next, st, 81);
    if is_placing(t) {
        let c = choose|c: int| in_grid(c) && (#[trigger] placement(t, st, c)) is Some;
        lemma_placement_places(t, st, c, 1);
        let d = placement(t, st, c)->0 as int;
        assert(st.live.contains((c, d)));
        assert(!next.live.contains((c, d)));
    } else {
        let (c, x) = choose|c: int, x: int| #[trigger]
            st.live.contains((c, x)) && strikes(t, st, c, x);
        assert(pair_index(c, x) < 729);
        assert(!next.live.contains((c, x)));
    }
    assert forall|c: int, x: int| #[trigger] next.live.contains((c, x)) implies in_grid(c)
        && is_digit(x) by {
        assert(st.live.contains((c, x)));
    }
}

/// The first rung that makes progress, if there is one, does make progress
/// and is a rung of the ladder.
pub proof fn lemma_first_rung(st: SolverState, lo: int, hi: int)
    ensures
        first_rung(st, lo, hi) is Some ==> makes_progress(first_rung(st, lo, hi)->0, st)
            && exists|k: int|
            lo <= k < hi && 0 <= k < 10 && #[trigger] ladder()[k] == first_rung(st, lo, hi)->0,
        first_rung(st, lo, hi) is None ==> forall|k: int|
            0 <= lo <= k < hi && k < 10 ==> !makes_progress(#[trigger] ladder()[k], st),
    decreases hi - lo,
{
    if !(lo < 0 || lo >= hi || lo >= 10) {
        if !makes_progress(ladder()[lo], st) {
            lemma_first_rung(st, lo + 1, hi);
        }
    }
}

/// Searching the rungs `lo` to `hi` is searching `lo` to `mid` and then,
/// if nothing was found, `mid` to `hi`.
pub proof fn lemma_first_rung_split(st: SolverState, lo: int, mid: int, hi: int)
    requires
        0 <= lo <= mid <= hi <= 10,
    ensures
        first_rung(st, lo, hi) == if first_rung(st, lo, mid) is Some {
            first_rung(st, lo, mid)
        } else {
            first_rung(st, mid, hi)
        },
    decreases mid - lo,
{
    if lo < mid {
        if !makes_progress(ladder()[lo], st) {
            lemma_first_rung_split(st, lo + 1, mid, hi);
        }
    }
}

/// A round that makes progress lowers the number of live pairs.
pub proof fn lemma_round_lowers_total(st: SolverState, lo: int, hi: int)
    requires
        live_in_range(st),
        first_rung(st, lo, hi) is Some,
    ensures
        round(st, lo, hi).total() < st.total(),
        live_in_range(round(st, lo, hi)),
{
    lemma_first_rung(st, lo, hi);
    lemma_progress_lowers_total(first_rung(st, lo, hi)->0, st);
}

/// With fuel for every live pair the ladder comes to rest, and more fuel
/// changes nothing.
pub proof fn lemma_run_comes_to_rest(st: SolverState, fuel: nat)
    requires
        live_in_range(st),
        fuel >= st.total(),
    ensures
        run(st, fuel) == at_rest(st),
        first_rung(at_rest(st), 0, 10) is None,
    decreases fuel,
{
    lemma_total_bounds(st, 81);
    if first_rung(st, 0, 10) is Some {
        let next = round(st, 0, 10);
        lemma_round_lowers_total(st, 0, 10);
        lemma_total_bounds(next, 81);
        lemma_run_comes_to_rest(next, (fuel - 1) as nat);
        lemma_run_comes_to_rest(next, (st.total() - 1) as nat);
    }
}

/// A round that makes progress does not change where the ladder comes to rest.
pub proof fn lemma_round_keeps_rest(st: SolverState)
    requires
        live_in_range(st),
        first_rung(st, 0, 10) is Some,
    ensures
        at_rest(round(st, 0, 10)) == at_rest(st),
{
    let next = round(st, 0, 10);
    lemma_round_lowers_total(st, 0, 10);
    lemma_total_bounds(next, 81);
    lemma_run_comes_to_rest(next, (st.total() - 1) as nat);
}

/// The ladder leaves the state in which it came to rest as it is.
pub proof fn lemma_rest_is_stable(st: SolverState)
    requires
        live_in_range(st),
    ensures
        at_rest(at_rest(st)) == at_rest(st),
{
    lemma_run_comes_to_rest(st, st.total() as nat);
}

/// Two different pairs of a cell and a digit have different positions.
pub proof fn lemma_pair_index_unique(c: int, x: int, d: int, y: int)
    requires
        is_digit(x),
        is_digit(y),
        pair_index(c, x) == pair_index(d, y),
    ensures
        c == d,
        x == y,
{
}

/// Passing position `k` leads from one partial sweep to the next: the pair
/// at `k` is struck if the technique rules it out.
pub proof fn lemma_strike_next(t: SolvingTechnique, st: SolverState, c: int, x: int)
    requires
        live_in_range(st),
        in_grid(c),
        is_digit(x),
    ensures
        struck_upto(t, st, pair_index(c, x) + 1).live == if st.live.contains((c, x)) && strikes(
            t,
            st,
            c,
            x,
        ) {
            struck_upto(t, st, pair_index(c, x)).live.remove((c, x))
        } else {
            struck_upto(t, st, pair_index(c, x)).live
        },
{
    let k = pair_index(c, x);
    let a = struck_upto(t, st, k).live;
    let b = struck_upto(t, st, k + 1).live;
    let hit = st.live.contains((c, x)) && strikes(t, st, c, x);
    assert forall|p: (int, int)| b.contains(p) == (a.contains(p) && !(hit && p == (c, x))) by {
        assert(p == (p.0, p.1));
        if st.live.contains(p) {
            if pair_index(p.0, p.1) == k {
                lemma_pair_index_unique(p.0, p.1, c, x);
            }
        }
    }
    if hit {
        assert(b =~= a.remove((c, x)));
    } else {
        assert(b =~= a);
    }
}

impl HumanStyleSolver {
    /// Whether a pattern of technique `t` rules candidate `x` out for cell `c`.
    pub fn technique_strikes(&self, t: SolvingTechnique, c: usize, x: u8) -> (hit: bool)
        requires
            self.wf(),
            c < 81,
            1 <= x <= 9,
        ensures
            hit == strikes(t, self@, c as int, x as int),
    {
        match t {
            SolvingTechnique::NakedPair => self.naked_pair_strikes(c, x),
            SolvingTechnique::HiddenPair => self.hidden_pair_strikes(c, x),
            SolvingTechnique::BoxLineReduction => self.box_line_strikes(c, x),
            SolvingTechnique::PointingPairs => self.pointing_pair_strikes(c, x),
            SolvingTechnique::XWing => self.x_wing_strikes(c, x),
            SolvingTechnique::PointingTriples => self.pointing_triple_strikes(c, x),
            SolvingTechnique::Swordfish => self.swordfish_strikes(c, x),
            SolvingTechnique::XYWing => self.xy_wing_strikes(c, x),
            _ => false,
        }
    }

    /// For every pair of a cell and a digit, in sweep order: whether the
    /// pair is live and technique `t` rules it out.
    fn plan_strikes(&self, t: SolvingTechnique) -> (plan: Vec<bool>)
        requires
            self.wf(),
        ensures
            plan@.len() == 729,
            forall|c: int, x: int|
                in_grid(c) && is_digit(x) ==> plan@[#[trigger] pair_index(c, x)] == (
                self@.live.contains((c, x)) && strikes(t, self@, c, x)),
    {
        let mut plan: Vec<bool> = Vec::new();
        let mut c: usize = 0;
        while c < BOARD_SIZE
            invariant
                self.wf(),
                c <= 81,
                plan@.len() == 9 * c,
                forall|i: int, x: int|
                    0 <= i < c && is_digit(x) ==> plan@[#[trigger] pair_index(i, x)] == (
                    self@.live.contains((i, x)) && strikes(t, self@, i, x)),
            decreases 81 - c,
        {
            let mut x: u8 = 1;
            while x <= 9
                invariant
                    self.wf(),
                    c < 81,
                    1 <= x <= 10,
                    plan@.len() == 9 * c + (x - 1),
                    forall|i: int, y: int|
                        0 <= i < c && is_digit(y) ==> plan@[#[trigger] pair_index(i, y)] == (
                        self@.live.contains((i, y)) && strikes(t, self@, i, y)),
                    forall|y: int|
                        1 <= y < x ==> plan@[#[trigger] pair_index(c as int, y)] == (
                        self@.live.contains((c as int, y)) && strikes(t, self@, c as int, y)),
                decreases 10 - x,
            {
                let hit = self.is_live(c, x) && self.technique_strikes(t, c, x);
                plan.push(hit);
                x += 1;
            }
            c += 1;
        }
        plan
    }

    /// One sweep of an eliminating technique: every live pair that a
    /// pattern of the technique rules out, on the state as it stands, is
    /// struck.
    fn sweep_strikes(&mut self, t: SolvingTechnique) -> (progress: bool)
        requires
            old(self).wf(),
            !is_placing(t),
        ensures
            final(self).wf(),
            progress == makes_progress(t, old(self)@),
            final(self)@ == applied(t, old(self)@),
    {
        let plan = self.plan_strikes(t);
        let ghost st = self@;
        let mut progress = false;
        let mut c: usize = 0;
        while c < BOARD_SIZE
            invariant
                self.wf(),
                st.wf(),
                !is_placing(t),
                c <= 81,
                plan@.len() == 729,
                forall|i: int, x: int|
                    in_grid(i) && is_digit(x) ==> plan@[#[trigger] pair_index(i, x)] == (
                    st.live.contains((i, x)) && strikes(t, st, i, x)),
                self@.board == st.board,
                self@.used == st.used,
                self@.live == struck_upto(t, st, 9 * c).live,
                progress == exists|i: int, x: int|
                    i < c && #[trigger] st.live.contains((i, x)) && strikes(t, st, i, x),
            decreases 81 - c,
        {
            let mut x: u8 = 1;
            while x <= 9
                invariant
                    self.wf(),
                    st.wf(),
                    c < 81,
                    1 <= x <= 10,
                    plan@.len() == 729,
                    forall|i: int, y: int|
                        in_grid(i) && is_digit(y) ==> plan@[#[trigger] pair_index(i, y)] == (
                        st.live.contains((i, y)) && strikes(t, st, i, y)),
                    self@.board == st.board,
                    self@.used == st.used,
                    self@.live == struck_upto(t, st, 9 * c + (x - 1)).live,
                    progress == exists|i: int, y: int|
                        (i < c || (i == c && y < x)) && #[trigger] st.live.contains((i, y))
                            && strikes(t, st, i, y),
                decreases 10 - x,
            {
                let k: usize = c * 9 + (x as usize - 1);
                proof {
                    assert(k == pair_index(c as int, x as int));
                    lemma_strike_next(t, st, c as int, x as int);
                }
                if plan[k] {
                    self.eliminate(c, x);
                    progress = true;
                }
                x += 1;
            }
            c += 1;
        }
        proof {
            assert(self@ == swept(t, st));
            if !progress {
                assert(self@.live =~= st.live) by {
                    assert forall|p: (int, int)| self@.live.contains(p) == st.live.contains(p) by {
                        assert(p == (p.0, p.1));
                    }
                }
                assert(self@ == st);
            }
        }
        if progress {
            self.record_technique_used(t);
        }
        progress
    }

    /// Naked pairs: where two cells of a unit hold the same two candidates,
    /// those two digits are struck from the other cells of the unit.
    pub fn find_naked_pairs(&mut self) -> (progress: bool)
        requires
            old(self).wf(),
        ensures
            final(self).wf(),
            progress == makes_progress(SolvingTechnique::NakedPair, old(self)@),
            final(self)@ == applied(SolvingTechnique::NakedPair, old(self)@),
    {
        self.sweep_strikes(SolvingTechnique::NakedPair)
    }

    /// Hidden pairs: where two digits are confined to the same two cells of
    /// a unit, every other candidate is struck from those two cells.
    pub fn find_hidden_pairs(&mut self) -> (progress: bool)
        requires
            old(self).wf(),
        ensures
            final(self).wf(),
            progress == makes_progress(SolvingTechnique::HiddenPair, old(self)@),
            final(self)@ == applied(SolvingTechnique::HiddenPair, old(self)@),
    {
        self.sweep_strikes(SolvingTechnique::HiddenPair)
    }

    /// Box-line reduction: where the places of a digit within a box lie on
    /// one row or column, the digit is struck from the rest of that line.
    pub fn find_box_line_reduction(&mut self) -> (progress: bool)
        requires
            old(self).wf(),
        ensures
            final(self).wf(),
            progress == makes_progress(SolvingTechnique::BoxLineReduction, old(self)@),
            final(self)@ == applied(SolvingTechnique::BoxLineReduction, old(self)@),
    {
        self.sweep_strikes(SolvingTechnique::BoxLineReduction)
    }

    /// Pointing pairs: where the places of a digit within a row or column
    /// lie in one box, the digit is struck from the rest of that box.
    pub fn find_pointing_pairs(&mut self) -> (progress: bool)
        requires
            old(self).wf(),
        ensures
            final(self).wf(),
            progress == makes_progress(SolvingTechnique::PointingPairs, old(self)@),
            final(self)@ == applied(SolvingTechnique::PointingPairs, old(self)@),
    {
        self.sweep_strikes(SolvingTechnique::PointingPairs)
    }

    /// X-Wing: where two rows have a digit at the same two columns only,
    /// the digit is struck from those columns in every other row; likewise
    /// with rows and columns exchanged.
    pub fn find_x_wing(&mut self) -> (progress: bool)
        requires
            old(self).wf(),
        ensures
            final(self).wf(),
            progress == makes_progress(SolvingTechnique::XWing, old(self)@),
            final(self)@ == applied(SolvingTechnique::XWing, old(self)@),
    {
        self.sweep_strikes(SolvingTechnique::XWing)
    }

    /// Pointing triples: where a row or column has exactly three places of
    /// a digit, all in one box, the digit is struck from the rest of that box.
    pub fn find_pointing_triples(&mut self) -> (progress: bool)
        requires
            old(self).wf(),
        ensures
            final(self).wf(),
            progress == makes_progress(SolvingTechnique::PointingTriples, old(self)@),
            final(self)@ == applied(SolvingTechnique::PointingTriples, old(self)@),
    {
        self.sweep_strikes(SolvingTechnique::PointingTriples)
    }

    /// Swordfish: where three rows have all their places of a digit on the
    /// same three columns, the digit is struck from those columns in every
    /// other row; likewise with rows and columns exchanged.
    pub fn find_swordfish(&mut self) -> (progress: bool)
        requires
            old(self).wf(),
        ensures
            final(self).wf(),
            progress == makes_progress(SolvingTechnique::Swordfish, old(self)@),
            final(self)@ == applied(SolvingTechnique::Swordfish, old(self)@),
    {
        self.sweep_strikes(SolvingTechnique::Swordfish)
    }

    /// XY-Wing: where a pivot with the candidates `{x, y}` sees two wings
    /// with `{x, z}` and `{y, z}`, digit `z` is struck from every cell that
    /// sees both wings.
    pub fn find_xy_wing(&mut self) -> (progress: bool)
        requires
            old(self).wf(),
        ensures
            final(self).wf(),
            progress == makes_progress(SolvingTechnique::XYWing, old(self)@),
            final(self)@ == applied(SolvingTechnique::XYWing, old(self)@),
    {
        self.sweep_strikes(SolvingTechnique::XYWing)
    }

    /// The basic rungs: naked singles, then hidden singles. The first that
    /// makes progress is applied.
    pub fn apply_basic_techniques(&mut self) -> (progress: bool)
        requires
            old(self).wf(),
        ensures
            final(self).wf(),
            progress == first_rung(old(self)@, 0, 2) is Some,
            final(self)@ == round(old(self)@, 0, 2),
    {
        proof {
            reveal_with_fuel(first_rung, 3);
        }
        self.find_naked_singles() || self.find_hidden_singles()
    }

    /// The intermediate rungs: naked pairs, hidden pairs, box-line
    /// reduction, pointing pairs. The first that makes progress is applied.
    pub fn apply_intermediate_techniques(&mut self) -> (progress: bool)
        requires
            old(self).wf(),
        ensures
            final(self).wf(),
            progress == first_rung(old(self)@, 2, 6) is Some,
            final(self)@ == round(old(self)@, 2, 6),
    {
        proof {
            reveal_with_fuel(first_rung, 5);
        }
        self.find_naked_pairs() || self.find_hidden_pairs() || self.find_box_line_reduction()
            || self.find_pointing_pairs()
    }

    /// The advanced rungs: X-Wing, pointing triples, Swordfish, XY-Wing.
    /// The first that makes progress is applied.
    pub fn apply_advanced_techniques(&mut self) -> (progress: bool)
        requires
            old(self).wf(),
        ensures
            final(self).wf(),
            progress == first_rung(old(self)@, 6, 10) is Some,
            final(self)@ == round(old(self)@, 6, 10),
    {
        proof {
            reveal_with_fuel(first_rung, 5);
        }
        self.find_x_wing() || self.find_pointing_triples() || self.find_swordfish()
            || self.find_xy_wing()
    }

    /// Applies the ladder until no technique makes progress: in each round
    /// the weakest technique that makes progress is applied, and the next
    /// round starts from the bottom again.
    ///
    /// Returns whether the board is full. A board that stays partly empty
    /// calls for techniques beyond this ladder.
    pub fn solve_with_techniques(&mut self) -> (solved: bool)
        requires
            old(self).wf(),
        ensures
            final(self).wf(),
            final(self)@ == at_rest(old(self)@),
            first_rung(final(self)@, 0, 10) is None,
            solved == complete(final(self)@.board),
    {
        let ghost start = self@;
        let mut progress = true;
        while progress
            invariant
                self.wf(),
                at_rest(self@) == at_rest(start),
                !progress ==> first_rung(self@, 0, 10) is None,
            decreases self@.total() + if progress { 1int } else { 0int },
        {
            let ghost before = self@;
            proof {
                lemma_first_rung_split(before, 0, 2, 10);
                lemma_first_rung_split(before, 2, 6, 10);
                lemma_total_bounds(before, 81);
                if first_rung(before, 0, 10) is Some {
                    lemma_round_keeps_rest(before);
                    lemma_round_lowers_total(before, 0, 10);
                    lemma_total_bounds(round(before, 0, 10), 81);
                }
            }
            progress = self.apply_basic_techniques();
            if !progress {
                progress = self.apply_intermediate_techniques();
            }
            if !progress {
                progress = self.apply_advanced_techniques();
            }
        }
        proof {
            lemma_total_bounds(self@, 81);
            assert(run(self@, self@.total() as nat) == self@);
        }
        self.is_solved()
    }
}

} // verus!
