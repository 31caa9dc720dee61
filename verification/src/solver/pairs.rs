//! Naked pairs and hidden pairs: the search for a pattern that rules a
//! given candidate out.

use vstd::prelude::*;
use crate::grid::same_unit;
use crate::solver::patterns::{confined, hidden_pair, in_unit, naked_pair, strikes};
use crate::solver::HumanStyleSolver;
use crate::types::{SolvingTechnique, BOARD_SIZE};

verus! {

impl HumanStyleSolver {
    /// Whether cell `a` has a partner that forms, with it, a naked pair
    /// against candidate `x` of cell `c` in the unit of the given kind.
    fn naked_pair_partner(&self, c: usize, x: u8, a: usize, kind: u8) -> (found: bool)
        requires
            self.wf(),
            c < 81,
            a < 81,
            1 <= x <= 9,
            kind < 3,
        ensures
            found == exists|b: int| naked_pair(self@, c as int, x as int, a as int, b, kind as int),
    {
        if a == c || !same_unit(kind, c, a) || self.live_count(a) != 2 || !self.is_live(a, x) {
            return false;
        }
        let mut b: usize = 0;
        while b < BOARD_SIZE
            invariant
                self.wf(),
                c < 81,
                a < 81,
                1 <= x <= 9,
                kind < 3,
                b <= 81,
                a != c,
                in_unit(kind as int, c as int, a as int),
                self@.count(a as int) == 2,
                self@.live.contains((a as int, x as int)),
                forall|i: int|
                    0 <= i < b ==> !naked_pair(self@, c as int, x as int, a as int, i, kind as int),
            decreases 81 - b,
        {
            if b != a && b != c && same_unit(kind, c, b) && self.live_count(b) == 2
                && self.same_candidates(a, b) {
                assert(naked_pair(self@, c as int, x as int, a as int, b as int, kind as int));
                return true;
            }
            b += 1;
        }
        false
    }

    /// Whether a naked pair in the unit of the given kind rules `x` out for `c`.
    fn naked_pair_in_unit(&self, c: usize, x: u8, kind: u8) -> (found: bool)
        requires
            self.wf(),
            c < 81,
            1 <= x <= 9,
            kind < 3,
        ensures
            found == exists|a: int, b: int|
                naked_pair(self@, c as int, x as int, a, b, kind as int),
    {
        let mut a: usize = 0;
        while a < BOARD_SIZE
            invariant
                self.wf(),
                c < 81,
                1 <= x <= 9,
                kind < 3,
                a <= 81,
                forall|i: int, b: int|
                    0 <= i < a ==> !naked_pair(self@, c as int, x as int, i, b, kind as int),
            decreases 81 - a,
        {
            if self.naked_pair_partner(c, x, a, kind) {
                return true;
            }
            a += 1;
        }
        false
    }

    /// Whether a naked pair rules candidate `x` out for cell `c`: two other
    /// cells of a unit of `c` hold the same two candidates, `x` among them.
    pub fn naked_pair_strikes(&self, c: usize, x: u8) -> (hit: bool)
        requires
            self.wf(),
            c < 81,
            1 <= x <= 9,
        ensures
            hit == strikes(SolvingTechnique::NakedPair, self@, c as int, x as int),
    {
        self.naked_pair_in_unit(c, x, 0) || self.naked_pair_in_unit(c, x, 1)
            || self.naked_pair_in_unit(c, x, 2)
    }

    /// Whether digit `y` has a second digit that forms, with it, a hidden
    /// pair in the cells `c` and `b`, against candidate `x` of `c`.
    fn hidden_pair_second(&self, c: usize, x: u8, b: usize, y: u8, kind: u8) -> (found: bool)
        requires
            self.wf(),
            c < 81,
            b < 81,
            1 <= x <= 9,
            1 <= y <= 9,
            kind < 3,
        ensures
            found == exists|z: int|
                hidden_pair(self@, c as int, x as int, b as int, y as int, z, kind as int),
    {
        if b == c || !same_unit(kind, c, b) || y == x || !self.is_live(c, y) || !self.is_live(b, y)
            || !self.digit_confined(kind, c, b, y) {
            return false;
        }
        let mut z: u8 = y + 1;
        while z <= 9
            invariant
                self.wf(),
                c < 81,
                b < 81,
                1 <= x <= 9,
                1 <= y <= 9,
                kind < 3,
                y < z <= 10,
                b != c,
                in_unit(kind as int, c as int, b as int),
                y != x,
                self@.live.contains((c as int, y as int)),
                self@.live.contains((b as int, y as int)),
                confined(self@, kind as int, c as int, b as int, y as int),
                forall|i: int|
                    i < z ==> !hidden_pair(
                        self@,
                        c as int,
                        x as int,
                        b as int,
                        y as int,
                        i,
                        kind as int,
                    ),
            decreases 10 - z,
        {
            if z != x && self.is_live(c, z) && self.is_live(b, z) && self.digit_confined(
                kind,
                c,
                b,
                z,
            ) {
                assert(hidden_pair(
                    self@,
                    c as int,
                    x as int,
                    b as int,
                    y as int,
                    z as int,
                    kind as int,
                ));
                return true;
            }
            z += 1;
        }
        false
    }

    /// Whether the cells `c` and `b` hold a hidden pair against candidate `x` of `c`.
    fn hidden_pair_with(&self, c: usize, x: u8, b: usize, kind: u8) -> (found: bool)
        requires
            self.wf(),
            c < 81,
            b < 81,
            1 <= x <= 9,
            kind < 3,
        ensures
            found == exists|y: int, z: int|
                hidden_pair(self@, c as int, x as int, b as int, y, z, kind as int),
    {
        if b == c || !same_unit(kind, c, b) {
            return false;
        }
        let mut y: u8 = 1;
        while y <= 9
            invariant
                self.wf(),
                c < 81,
                b < 81,
                1 <= x <= 9,
                kind < 3,
                1 <= y <= 10,
                forall|i: int, z: int|
                    i < y ==> !hidden_pair(self@, c as int, x as int, b as int, i, z, kind as int),
            decreases 10 - y,
        {
            if self.hidden_pair_second(c, x, b, y, kind) {
                return true;
            }
            y += 1;
        }
        false
    }

    /// Whether a hidden pair in the unit of the given kind rules `x` out for `c`.
    fn hidden_pair_in_unit(&self, c: usize, x: u8, kind: u8) -> (found: bool)
        requires
            self.wf(),
            c < 81,
            1 <= x <= 9,
            kind < 3,
        ensures
            found == exists|b: int, y: int, z: int|
                hidden_pair(self@, c as int, x as int, b, y, z, kind as int),
    {
        let mut b: usize = 0;
        while b < BOARD_SIZE
            invariant
                self.wf(),
                c < 81,
                1 <= x <= 9,
                kind < 3,
                b <= 81,
                forall|i: int, y: int, z: int|
                    0 <= i < b ==> !hidden_pair(self@, c as int, x as int, i, y, z, kind as int),
            decreases 81 - b,
        {
            if self.hidden_pair_with(c, x, b, kind) {
                return true;
            }
            b += 1;
        }
        false
    }

    /// Whether a hidden pair rules candidate `x` out for cell `c`: two other
    /// digits are confined, in a unit of `c`, to `c` and one more cell.
    pub fn hidden_pair_strikes(&self, c: usize, x: u8) -> (hit: bool)
        requires
            self.wf(),
            c < 81,
            1 <= x <= 9,
        ensures
            hit == strikes(SolvingTechnique::HiddenPair, self@, c as int, x as int),
    {
        self.hidden_pair_in_unit(c, x, 0) || self.hidden_pair_in_unit(c, x, 1)
            || self.hidden_pair_in_unit(c, x, 2)
    }
}

} // verus!
