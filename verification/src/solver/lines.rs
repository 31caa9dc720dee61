//! Techniques on the crossing of a box and a line: box-line reduction,
//! pointing pairs and pointing triples.

use vstd::prelude::*;
use crate::grid::{box_of_cell, same_unit};
use crate::solver::patterns::{
    box_line, box_on_line, line_in_box, line_is_triple, pointing_pair, pointing_triple, strikes,
};
use crate::solver::HumanStyleSolver;
use crate::types::{SolvingTechnique, BOARD_SIZE};

verus! {

impl HumanStyleSolver {
    /// Whether, within the box of `p`, digit `x` is live only on the line of `p`.
    #[verifier::loop_isolation(false)]
    pub fn box_held_on_line(&self, kind: u8, p: usize, x: u8) -> (held: bool)
        requires
            self.wf(),
            p < 81,
            1 <= x <= 9,
        ensures
            held == box_on_line(self@, kind as int, p as int, x as int),
    {
        let home: usize = box_of_cell(p);
        let mut j: usize = 0;
        while j < BOARD_SIZE
            invariant
                j <= 81,
                forall|i: int|
                    0 <= i < j && crate::rules::box_of(i) == home && #[trigger] self@.live.contains(
                        (i, x as int),
                    ) ==> crate::solver::patterns::in_unit(kind as int, p as int, i),
            decreases 81 - j,
        {
            if box_of_cell(j) == home && self.is_live(j, x) && !same_unit(kind, p, j) {
                return false;
            }
            j += 1;
        }
        true
    }

    /// Whether, on the line of `p`, digit `x` is live only inside the box of `p`.
    #[verifier::loop_isolation(false)]
    pub fn line_held_in_box(&self, kind: u8, p: usize, x: u8) -> (held: bool)
        requires
            self.wf(),
            p < 81,
            1 <= x <= 9,
        ensures
            held == line_in_box(self@, kind as int, p as int, x as int),
    {
        let home: usize = box_of_cell(p);
        let mut j: usize = 0;
        while j < BOARD_SIZE
            invariant
                j <= 81,
                forall|i: int|
                    0 <= i < j && crate::solver::patterns::in_unit(kind as int, p as int, i)
                        && #[trigger] self@.live.contains((i, x as int)) ==> crate::rules::box_of(i)
                        == home,
            decreases 81 - j,
        {
            if same_unit(kind, p, j) && self.is_live(j, x) && box_of_cell(j) != home {
                return false;
            }
            j += 1;
        }
        true
    }

    /// Whether, on the line of `p`, digit `x` is live at `p`, `q` and `r` only.
    #[verifier::loop_isolation(false)]
    pub fn line_holds_only(&self, kind: u8, p: usize, q: usize, r: usize, x: u8) -> (held: bool)
        requires
            self.wf(),
            p < 81,
            1 <= x <= 9,
        ensures
            held == line_is_triple(self@, kind as int, p as int, q as int, r as int, x as int),
    {
        let mut j: usize = 0;
        while j < BOARD_SIZE
            invariant
                j <= 81,
                forall|i: int|
                    0 <= i < j && crate::solver::patterns::in_unit(kind as int, p as int, i)
                        && #[trigger] self@.live.contains((i, x as int)) ==> i == p || i == q || i
                        == r,
            decreases 81 - j,
        {
            if j != p && j != q && j != r && same_unit(kind, p, j) && self.is_live(j, x) {
                return false;
            }
            j += 1;
        }
        true
    }

    /// Whether place `p` of digit `x` has a second place in its box that
    /// completes a box-line reduction against candidate `x` of `c`.
    #[verifier::loop_isolation(false)]
    fn box_line_second(&self, c: usize, x: u8, p: usize, kind: u8) -> (found: bool)
        requires
            self.wf(),
            c < 81,
            p < 81,
            1 <= x <= 9,
            kind < 2,
        ensures
            found == exists|q: int| box_line(self@, c as int, x as int, p as int, q, kind as int),
    {
        if box_of_cell(p) == box_of_cell(c) || !same_unit(kind, c, p) || !self.is_live(p, x)
            || !self.box_held_on_line(kind, p, x) {
            return false;
        }
        let home: usize = box_of_cell(p);
        let mut q: usize = 0;
        while q < BOARD_SIZE
            invariant
                q <= 81,
                forall|i: int|
                    0 <= i < q ==> !box_line(self@, c as int, x as int, p as int, i, kind as int),
            decreases 81 - q,
        {
            if q != p && box_of_cell(q) == home && self.is_live(q, x) {
                assert(box_line(self@, c as int, x as int, p as int, q as int, kind as int));
                return true;
            }
            q += 1;
        }
        false
    }

    /// Whether a box-line reduction along lines of the given kind rules `x` out for `c`.
    #[verifier::loop_isolation(false)]
    fn box_line_along(&self, c: usize, x: u8, kind: u8) -> (found: bool)
        requires
            self.wf(),
            c < 81,
            1 <= x <= 9,
            kind < 2,
        ensures
            found == exists|p: int, q: int| box_line(self@, c as int, x as int, p, q, kind as int),
    {
        let mut p: usize = 0;
        while p < BOARD_SIZE
            invariant
                p <= 81,
                forall|i: int, q: int|
                    0 <= i < p ==> !box_line(self@, c as int, x as int, i, q, kind as int),
            decreases 81 - p,
        {
            if self.box_line_second(c, x, p, kind) {
                return true;
            }
            p += 1;
        }
        false
    }

    /// Whether a box-line reduction rules candidate `x` out for cell `c`:
    /// in another box, all places of `x` (two at least) lie on the row, or
    /// on the column, of `c`.
    pub fn box_line_strikes(&self, c: usize, x: u8) -> (hit: bool)
        requires
            self.wf(),
            c < 81,
            1 <= x <= 9,
        ensures
            hit == strikes(SolvingTechnique::BoxLineReduction, self@, c as int, x as int),
    {
        self.box_line_along(c, x, 0) || self.box_line_along(c, x, 1)
    }

    /// Whether place `p` of digit `x` has a second place on its line that
    /// completes a pointing pair against candidate `x` of `c`.
    #[verifier::loop_isolation(false)]
    fn pointing_second(&self, c: usize, x: u8, p: usize, kind: u8) -> (found: bool)
        requires
            self.wf(),
            c < 81,
            p < 81,
            1 <= x <= 9,
            kind < 2,
        ensures
            found == exists|q: int|
                pointing_pair(self@, c as int, x as int, p as int, q, kind as int),
    {
        if box_of_cell(p) != box_of_cell(c) || same_unit(kind, p, c) || !self.is_live(p, x)
            || !self.line_held_in_box(kind, p, x) {
            return false;
        }
        let mut q: usize = 0;
        while q < BOARD_SIZE
            invariant
                q <= 81,
                forall|i: int|
                    0 <= i < q ==> !pointing_pair(
                        self@,
                        c as int,
                        x as int,
                        p as int,
                        i,
                        kind as int,
                    ),
            decreases 81 - q,
        {
            if q != p && same_unit(kind, p, q) && self.is_live(q, x) {
                assert(pointing_pair(self@, c as int, x as int, p as int, q as int, kind as int));
                return true;
            }
            q += 1;
        }
        false
    }

    /// Whether a pointing pair on a line of the given kind rules `x` out for `c`.
    #[verifier::loop_isolation(false)]
    fn pointing_along(&self, c: usize, x: u8, kind: u8) -> (found: bool)
        requires
            self.wf(),
            c < 81,
            1 <= x <= 9,
            kind < 2,
        ensures
            found == exists|p: int, q: int|
                pointing_pair(self@, c as int, x as int, p, q, kind as int),
    {
        let mut p: usize = 0;
        while p < BOARD_SIZE
            invariant
                p <= 81,
                forall|i: int, q: int|
                    0 <= i < p ==> !pointing_pair(self@, c as int, x as int, i, q, kind as int),
            decreases 81 - p,
        {
            if self.pointing_second(c, x, p, kind) {
                return true;
            }
            p += 1;
        }
        false
    }

    /// Whether a pointing pair rules candidate `x` out for cell `c`: on a
    /// row or column that misses `c`, all places of `x` (two at least) lie
    /// in the box of `c`.
    pub fn pointing_pair_strikes(&self, c: usize, x: u8) -> (hit: bool)
        requires
            self.wf(),
            c < 81,
            1 <= x <= 9,
        ensures
            hit == strikes(SolvingTechnique::PointingPairs, self@, c as int, x as int),
    {
        self.pointing_along(c, x, 0) || self.pointing_along(c, x, 1)
    }

    /// Whether the places `p` and `q` have a third that completes a
    /// pointing triple against candidate `x` of `c`.
    #[verifier::loop_isolation(false)]
    fn triple_third(&self, c: usize, x: u8, p: usize, q: usize, kind: u8) -> (found: bool)
        requires
            self.wf(),
            c < 81,
            p < 81,
            q < 81,
            1 <= x <= 9,
            kind < 2,
        ensures
            found == exists|r: int|
                pointing_triple(self@, c as int, x as int, p as int, q as int, r, kind as int),
    {
        if p >= q || !same_unit(kind, p, q) || same_unit(kind, p, c) || box_of_cell(p)
            != box_of_cell(c) || box_of_cell(q) != box_of_cell(c) || !self.is_live(p, x)
            || !self.is_live(q, x) {
            return false;
        }
        let home: usize = box_of_cell(c);
        let mut r: usize = q + 1;
        while r < BOARD_SIZE
            invariant
                q < r <= 81,
                forall|i: int|
                    0 <= i < r ==> !pointing_triple(
                        self@,
                        c as int,
                        x as int,
                        p as int,
                        q as int,
                        i,
                        kind as int,
                    ),
            decreases 81 - r,
        {
            if same_unit(kind, p, r) && box_of_cell(r) == home && self.is_live(r, x)
                && self.line_holds_only(kind, p, q, r, x) {
                assert(pointing_triple(
                    self@,
                    c as int,
                    x as int,
                    p as int,
                    q as int,
                    r as int,
                    kind as int,
                ));
                return true;
            }
            r += 1;
        }
        false
    }

    /// Whether place `p` starts a pointing triple against candidate `x` of `c`.
    #[verifier::loop_isolation(false)]
    fn triple_second(&self, c: usize, x: u8, p: usize, kind: u8) -> (found: bool)
        requires
            self.wf(),
            c < 81,
            p < 81,
            1 <= x <= 9,
            kind < 2,
        ensures
            found == exists|q: int, r: int|
                pointing_triple(self@, c as int, x as int, p as int, q, r, kind as int),
    {
        if same_unit(kind, p, c) || box_of_cell(p) != box_of_cell(c) || !self.is_live(p, x) {
            return false;
        }
        let mut q: usize = 0;
        while q < BOARD_SIZE
            invariant
                q <= 81,
                forall|i: int, r: int|
                    0 <= i < q ==> !pointing_triple(
                        self@,
                        c as int,
                        x as int,
                        p as int,
                        i,
                        r,
                        kind as int,
                    ),
            decreases 81 - q,
        {
            if self.triple_third(c, x, p, q, kind) {
                return true;
            }
            q += 1;
        }
        false
    }

    /// Whether a pointing triple on a line of the given kind rules `x` out for `c`.
    #[verifier::loop_isolation(false)]
    fn triple_along(&self, c: usize, x: u8, kind: u8) -> (found: bool)
        requires
            self.wf(),
            c < 81,
            1 <= x <= 9,
            kind < 2,
        ensures
            found == exists|p: int, q: int, r: int|
                pointing_triple(self@, c as int, x as int, p, q, r, kind as int),
    {
        let mut p: usize = 0;
        while p < BOARD_SIZE
            invariant
                p <= 81,
                forall|i: int, q: int, r: int|
                    0 <= i < p ==> !pointing_triple(
                        self@,
                        c as int,
                        x as int,
                        i,
                        q,
                        r,
                        kind as int,
                    ),
            decreases 81 - p,
        {
            if self.triple_second(c, x, p, kind) {
                return true;
            }
            p += 1;
        }
        false
    }

    /// Whether a pointing triple rules candidate `x` out for cell `c`: a
    /// row or column that misses `c` has exactly three places of `x`, all in
    /// the box of `c`.
    pub fn pointing_triple_strikes(&self, c: usize, x: u8) -> (hit: bool)
        requires
            self.wf(),
            c < 81,
            1 <= x <= 9,
        ensures
            hit == strikes(SolvingTechnique::PointingTriples, self@, c as int, x as int),
    {
        self.triple_along(c, x, 0) || self.triple_along(c, x, 1)
    }
}

} // verus!
