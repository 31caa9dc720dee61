//! The advanced rungs of the ladder: X-Wing, Swordfish and XY-Wing.

use vstd::prelude::*;
use crate::grid::{cells_see, same_unit};
use crate::solver::patterns::{
    in_unit, line_has_two, line_in_three, line_is_pair, strikes, swordfish, x_wing, xy_wing,
};
use crate::solver::HumanStyleSolver;
use crate::types::{SolvingTechnique, BOARD_SIZE};

verus! {

impl HumanStyleSolver {
    /// Whether, on the line of `p`, digit `x` is live at `p` and `q` only.
    pub fn line_holds_pair(&self, kind: u8, p: usize, q: usize, x: u8) -> (held: bool)
        requires
            self.wf(),
            p < 81,
            1 <= x <= 9,
        ensures
            held == line_is_pair(self@, kind as int, p as int, q as int, x as int),
    {
        let held = self.line_holds_only(kind, p, q, q, x);
        held
    }

    /// Whether the places `p1`, `q1` and `p2` have a fourth that completes
    /// an X-Wing against candidate `x` of `c`.
    #[verifier::loop_isolation(false)]
    fn x_wing_fourth(&self, c: usize, x: u8, p1: usize, q1: usize, p2: usize, kind: u8) -> (found:
        bool)
        requires
            self.wf(),
            c < 81,
            p1 < 81,
            q1 < 81,
            p2 < 81,
            1 <= x <= 9,
            kind < 2,
        ensures
            found == exists|q2: int|
                x_wing(
                    self@,
                    c as int,
                    x as int,
                    p1 as int,
                    q1 as int,
                    p2 as int,
                    q2,
                    kind as int,
                ),
    {
        if !same_unit(1 - kind, c, p1) || !same_unit(1 - kind, c, p2) || !same_unit(kind, p1, q1)
            || p1 == q1 || same_unit(kind, p1, p2) || same_unit(kind, p1, c) || same_unit(
            kind,
            p2,
            c,
        ) || !self.is_live(p1, x) || !self.is_live(q1, x) || !self.is_live(p2, x)
            || !self.line_holds_pair(kind, p1, q1, x) {
            return false;
        }
        let mut q2: usize = 0;
        while q2 < BOARD_SIZE
            invariant
                q2 <= 81,
                forall|i: int|
                    0 <= i < q2 ==> !x_wing(
                        self@,
                        c as int,
                        x as int,
                        p1 as int,
                        q1 as int,
                        p2 as int,
                        i,
                        kind as int,
                    ),
            decreases 81 - q2,
        {
            if same_unit(1 - kind, q1, q2) && same_unit(kind, p2, q2) && self.is_live(q2, x)
                && self.line_holds_pair(kind, p2, q2, x) {
                assert(x_wing(
                    self@,
                    c as int,
                    x as int,
                    p1 as int,
                    q1 as int,
                    p2 as int,
                    q2 as int,
                    kind as int,
                ));
                return true;
            }
            q2 += 1;
        }
        false
    }

    /// Whether the places `p1` and `q1` form one line of an X-Wing against
    /// candidate `x` of `c`.
    #[verifier::loop_isolation(false)]
    fn x_wing_third(&self, c: usize, x: u8, p1: usize, q1: usize, kind: u8) -> (found: bool)
        requires
            self.wf(),
            c < 81,
            p1 < 81,
            q1 < 81,
            1 <= x <= 9,
            kind < 2,
        ensures
            found == exists|p2: int, q2: int|
                x_wing(self@, c as int, x as int, p1 as int, q1 as int, p2, q2, kind as int),
    {
        if !same_unit(1 - kind, c, p1) || !same_unit(kind, p1, q1) || p1 == q1 || same_unit(
            kind,
            p1,
            c,
        ) || !self.is_live(p1, x) || !self.is_live(q1, x) || !self.line_holds_pair(
            kind,
            p1,
            q1,
            x,
        ) {
            return false;
        }
        let mut p2: usize = 0;
        while p2 < BOARD_SIZE
            invariant
                p2 <= 81,
                forall|i: int, q2: int|
                    0 <= i < p2 ==> !x_wing(
                        self@,
                        c as int,
                        x as int,
                        p1 as int,
                        q1 as int,
                        i,
                        q2,
                        kind as int,
                    ),
            decreases 81 - p2,
        {
            if self.x_wing_fourth(c, x, p1, q1, p2, kind) {
                return true;
            }
            p2 += 1;
        }
        false
    }

    /// Whether place `p1` belongs to an X-Wing against candidate `x` of `c`.
    #[verifier::loop_isolation(false)]
    fn x_wing_second(&self, c: usize, x: u8, p1: usize, kind: u8) -> (found: bool)
        requires
            self.wf(),
            c < 81,
            p1 < 81,
            1 <= x <= 9,
            kind < 2,
        ensures
            found == exists|q1: int, p2: int, q2: int|
                x_wing(self@, c as int, x as int, p1 as int, q1, p2, q2, kind as int),
    {
        if !same_unit(1 - kind, c, p1) || same_unit(kind, p1, c) || !self.is_live(p1, x) {
            return false;
        }
        let mut q1: usize = 0;
        while q1 < BOARD_SIZE
            invariant
                q1 <= 81,
                forall|i: int, p2: int, q2: int|
                    0 <= i < q1 ==> !x_wing(
                        self@,
                        c as int,
                        x as int,
                        p1 as int,
                        i,
                        p2,
                        q2,
                        kind as int,
                    ),
            decreases 81 - q1,
        {
            if self.x_wing_third(c, x, p1, q1, kind) {
                return true;
            }
            q1 += 1;
        }
        false
    }

    /// Whether an X-Wing on lines of the given kind rules `x` out for `c`.
    #[verifier::loop_isolation(false)]
    fn x_wing_along(&self, c: usize, x: u8, kind: u8) -> (found: bool)
        requires
            self.wf(),
            c < 81,
            1 <= x <= 9,
            kind < 2,
        ensures
            found == exists|p1: int, q1: int, p2: int, q2: int|
                x_wing(self@, c as int, x as int, p1, q1, p2, q2, kind as int),
    {
        let mut p1: usize = 0;
        while p1 < BOARD_SIZE
            invariant
                p1 <= 81,
                forall|i: int, q1: int, p2: int, q2: int|
                    0 <= i < p1 ==> !x_wing(
                        self@,
                        c as int,
                        x as int,
                        i,
                        q1,
                        p2,
                        q2,
                        kind as int,
                    ),
            decreases 81 - p1,
        {
            if self.x_wing_second(c, x, p1, kind) {
                return true;
            }
            p1 += 1;
        }
        false
    }

    /// Whether an X-Wing rules candidate `x` out for cell `c`: two rows (or
    /// two columns) other than that of `c` have `x` at exactly two places
    /// each, on the same two columns (rows), one of them that of `c`.
    pub fn x_wing_strikes(&self, c: usize, x: u8) -> (hit: bool)
        requires
            self.wf(),
            c < 81,
            1 <= x <= 9,
        ensures
            hit == strikes(SolvingTechnique::XWing, self@, c as int, x as int),
    {
        self.x_wing_along(c, x, 0) || self.x_wing_along(c, x, 1)
    }

    /// Whether, on the line of `a`, digit `x` is live only where the line
    /// crosses the crossing lines of `c`, `b2` and `b3`.
    #[verifier::loop_isolation(false)]
    pub fn line_held_in_three(
        &self,
        kind: u8,
        a: usize,
        c: usize,
        b2: usize,
        b3: usize,
        x: u8,
    ) -> (held: bool)
        requires
            self.wf(),
            a < 81,
            c < 81,
            b2 < 81,
            b3 < 81,
            1 <= x <= 9,
            kind < 2,
        ensures
            held == line_in_three(
                self@,
                kind as int,
                a as int,
                c as int,
                b2 as int,
                b3 as int,
                x as int,
            ),
    {
        let mut j: usize = 0;
        while j < BOARD_SIZE
            invariant
                j <= 81,
                forall|i: int|
                    0 <= i < j && in_unit(kind as int, a as int, i) && #[trigger] self@.live.contains(
                        (i, x as int),
                    ) ==> in_unit(1 - kind, i, c as int) || in_unit(1 - kind, i, b2 as int)
                        || in_unit(1 - kind, i, b3 as int),
            decreases 81 - j,
        {
            if same_unit(kind, a, j) && self.is_live(j, x) && !same_unit(1 - kind, j, c)
                && !same_unit(1 - kind, j, b2) && !same_unit(1 - kind, j, b3) {
                return false;
            }
            j += 1;
        }
        true
    }

    /// Whether digit `x` is live in two cells at least of the line of `a`.
    #[verifier::loop_isolation(false)]
    pub fn line_holds_two(&self, kind: u8, a: usize, x: u8) -> (held: bool)
        requires
            self.wf(),
            a < 81,
            1 <= x <= 9,
        ensures
            held == line_has_two(self@, kind as int, a as int, x as int),
    {
        let mut p: usize = 0;
        while p < BOARD_SIZE
            invariant
                p <= 81,
                forall|i: int|
                    0 <= i < p && in_unit(kind as int, a as int, i) ==> !#[trigger] self@.live.contains(
                        (i, x as int),
                    ),
            decreases 81 - p,
        {
            if same_unit(kind, a, p) && self.is_live(p, x) {
                let mut q: usize = p + 1;
                while q < BOARD_SIZE
                    invariant
                        p < q <= 81,
                        forall|i: int|
                            p < i < q && in_unit(kind as int, a as int, i)
                                ==> !#[trigger] self@.live.contains((i, x as int)),
                    decreases 81 - q,
                {
                    if same_unit(kind, a, q) && self.is_live(q, x) {
                        assert(self@.live.contains((p as int, x as int)) && self@.live.contains(
                            (q as int, x as int),
                        ));
                        return true;
                    }
                    q += 1;
                }
                return false;
            }
            p += 1;
        }
        false
    }

    /// Whether the lines of `a1` and `a2` and the crossing lines of `b2`
    /// and `b3` have a third line that completes a Swordfish against
    /// candidate `x` of `c`.
    #[verifier::loop_isolation(false)]
    fn swordfish_third(
        &self,
        c: usize,
        x: u8,
        a1: usize,
        a2: usize,
        b2: usize,
        b3: usize,
        kind: u8,
    ) -> (found: bool)
        requires
            self.wf(),
            c < 81,
            a1 < 81,
            a2 < 81,
            b2 < 81,
            b3 < 81,
            1 <= x <= 9,
            kind < 2,
        ensures
            found == exists|a3: int|
                swordfish(
                    self@,
                    c as int,
                    x as int,
                    a1 as int,
                    a2 as int,
                    a3,
                    b2 as int,
                    b3 as int,
                    kind as int,
                ),
    {
        if !same_unit(1 - kind, c, a1) || same_unit(kind, a1, c) || !same_unit(1 - kind, c, a2)
            || same_unit(kind, a2, c) || same_unit(kind, a1, a2) || !same_unit(kind, c, b2)
            || !same_unit(kind, c, b3) || same_unit(1 - kind, c, b2) || same_unit(1 - kind, c, b3)
            || same_unit(1 - kind, b2, b3) || !self.line_holds_two(kind, a1, x)
            || !self.line_holds_two(kind, a2, x) || !self.line_held_in_three(
            kind,
            a1,
            c,
            b2,
            b3,
            x,
        ) || !self.line_held_in_three(kind, a2, c, b2, b3, x) {
            return false;
        }
        let mut a3: usize = 0;
        while a3 < BOARD_SIZE
            invariant
                a3 <= 81,
                forall|i: int|
                    0 <= i < a3 ==> !swordfish(
                        self@,
                        c as int,
                        x as int,
                        a1 as int,
                        a2 as int,
                        i,
                        b2 as int,
                        b3 as int,
                        kind as int,
                    ),
            decreases 81 - a3,
        {
            if same_unit(1 - kind, c, a3) && !same_unit(kind, a3, c) && !same_unit(kind, a1, a3)
                && !same_unit(kind, a2, a3) && self.line_holds_two(kind, a3, x)
                && self.line_held_in_three(kind, a3, c, b2, b3, x) {
                assert(swordfish(
                    self@,
                    c as int,
                    x as int,
                    a1 as int,
                    a2 as int,
                    a3 as int,
                    b2 as int,
                    b3 as int,
                    kind as int,
                ));
                return true;
            }
            a3 += 1;
        }
        false
    }

    /// Whether the line of `a1` and the crossing lines of `b2` and `b3`
    /// belong to a Swordfish against candidate `x` of `c`.
    #[verifier::loop_isolation(false)]
    fn swordfish_second(
        &self,
        c: usize,
        x: u8,
        a1: usize,
        b2: usize,
        b3: usize,
        kind: u8,
    ) -> (found: bool)
        requires
            self.wf(),
            c < 81,
            a1 < 81,
            b2 < 81,
            b3 < 81,
            1 <= x <= 9,
            kind < 2,
        ensures
            found == exists|a2: int, a3: int|
                swordfish(
                    self@,
                    c as int,
                    x as int,
                    a1 as int,
                    a2,
                    a3,
                    b2 as int,
                    b3 as int,
                    kind as int,
                ),
    {
        if !same_unit(1 - kind, c, a1) || same_unit(kind, a1, c) || !same_unit(kind, c, b2)
            || !same_unit(kind, c, b3) || same_unit(1 - kind, c, b2) || same_unit(1 - kind, c, b3)
            || same_unit(1 - kind, b2, b3) || !self.line_held_in_three(kind, a1, c, b2, b3, x) {
            return false;
        }
        let mut a2: usize = 0;
        while a2 < BOARD_SIZE
            invariant
                a2 <= 81,
                forall|i: int, a3: int|
                    0 <= i < a2 ==> !swordfish(
                        self@,
                        c as int,
                        x as int,
                        a1 as int,
                        i,
                        a3,
                        b2 as int,
                        b3 as int,
                        kind as int,
                    ),
            decreases 81 - a2,
        {
            if self.swordfish_third(c, x, a1, a2, b2, b3, kind) {
                return true;
            }
            a2 += 1;
        }
        false
    }

    /// Whether the line of `a1` and the crossing line of `b2` belong to a
    /// Swordfish against candidate `x` of `c`.
    #[verifier::loop_isolation(false)]
    fn swordfish_crossing(&self, c: usize, x: u8, a1: usize, b2: usize, kind: u8) -> (found: bool)
        requires
            self.wf(),
            c < 81,
            a1 < 81,
            b2 < 81,
            1 <= x <= 9,
            kind < 2,
        ensures
            found == exists|a2: int, a3: int, b3: int|
                swordfish(self@, c as int, x as int, a1 as int, a2, a3, b2 as int, b3, kind as int),
    {
        if !same_unit(kind, c, b2) || same_unit(1 - kind, c, b2) {
            return false;
        }
        let mut b3: usize = 0;
        while b3 < BOARD_SIZE
            invariant
                b3 <= 81,
                forall|a2: int, a3: int, i: int|
                    0 <= i < b3 ==> !swordfish(
                        self@,
                        c as int,
                        x as int,
                        a1 as int,
                        a2,
                        a3,
                        b2 as int,
                        i,
                        kind as int,
                    ),
            decreases 81 - b3,
        {
            if self.swordfish_second(c, x, a1, b2, b3, kind) {
                return true;
            }
            b3 += 1;
        }
        false
    }

    /// Whether the line of `a1` belongs to a Swordfish against candidate
    /// `x` of `c`.
    #[verifier::loop_isolation(false)]
    fn swordfish_first(&self, c: usize, x: u8, a1: usize, kind: u8) -> (found: bool)
        requires
            self.wf(),
            c < 81,
            a1 < 81,
            1 <= x <= 9,
            kind < 2,
        ensures
            found == exists|a2: int, a3: int, b2: int, b3: int|
                swordfish(self@, c as int, x as int, a1 as int, a2, a3, b2, b3, kind as int),
    {
        if !same_unit(1 - kind, c, a1) || same_unit(kind, a1, c) || !self.line_holds_two(
            kind,
            a1,
            x,
        ) {
            return false;
        }
        let mut b2: usize = 0;
        while b2 < BOARD_SIZE
            invariant
                b2 <= 81,
                forall|a2: int, a3: int, i: int, b3: int|
                    0 <= i < b2 ==> !swordfish(
                        self@,
                        c as int,
                        x as int,
                        a1 as int,
                        a2,
                        a3,
                        i,
                        b3,
                        kind as int,
                    ),
            decreases 81 - b2,
        {
            if self.swordfish_crossing(c, x, a1, b2, kind) {
                return true;
            }
            b2 += 1;
        }
        false
    }

    /// Whether a Swordfish on lines of the given kind rules `x` out for `c`.
    #[verifier::loop_isolation(false)]
    fn swordfish_along(&self, c: usize, x: u8, kind: u8) -> (found: bool)
        requires
            self.wf(),
            c < 81,
            1 <= x <= 9,
            kind < 2,
        ensures
            found == exists|a1: int, a2: int, a3: int, b2: int, b3: int|
                swordfish(self@, c as int, x as int, a1, a2, a3, b2, b3, kind as int),
    {
        let mut a1: usize = 0;
        while a1 < BOARD_SIZE
            invariant
                a1 <= 81,
                forall|i: int, a2: int, a3: int, b2: int, b3: int|
                    0 <= i < a1 ==> !swordfish(
                        self@,
                        c as int,
                        x as int,
                        i,
                        a2,
                        a3,
                        b2,
                        b3,
                        kind as int,
                    ),
            decreases 81 - a1,
        {
            if self.swordfish_first(c, x, a1, kind) {
                return true;
            }
            a1 += 1;
        }
        false
    }

    /// Whether a Swordfish rules candidate `x` out for cell `c`: three rows
    /// (or columns) other than that of `c` have all their places of `x`,
    /// two at least each, on three columns (rows), one of them that of `c`.
    pub fn swordfish_strikes(&self, c: usize, x: u8) -> (hit: bool)
        requires
            self.wf(),
            c < 81,
            1 <= x <= 9,
        ensures
            hit == strikes(SolvingTechnique::Swordfish, self@, c as int, x as int),
    {
        self.swordfish_along(c, x, 0) || self.swordfish_along(c, x, 1)
    }

    /// Whether the wings `w1` and `w2` with the digits `x` and `y` have a
    /// pivot that completes an XY-Wing against candidate `z` of `c`.
    #[verifier::loop_isolation(false)]
    fn xy_wing_pivot(&self, c: usize, z: u8, w1: usize, w2: usize, x: u8, y: u8) -> (found: bool)
        requires
            self.wf(),
            c < 81,
            w1 < 81,
            w2 < 81,
            1 <= z <= 9,
            1 <= x <= 9,
            1 <= y <= 9,
        ensures
            found == exists|pivot: int|
                xy_wing(
                    self@,
                    c as int,
                    z as int,
                    pivot,
                    w1 as int,
                    w2 as int,
                    x as int,
                    y as int,
                ),
    {
        if w1 == c || w2 == c || w1 == w2 || !cells_see(c, w1) || !cells_see(c, w2) || x == y || x
            == z || y == z || self.live_count(w1) != 2 || self.live_count(w2) != 2
            || !self.is_live(w1, x) || !self.is_live(w1, z) || !self.is_live(w2, y)
            || !self.is_live(w2, z) {
            return false;
        }
        let mut pivot: usize = 0;
        while pivot < BOARD_SIZE
            invariant
                pivot <= 81,
                forall|i: int|
                    0 <= i < pivot ==> !xy_wing(
                        self@,
                        c as int,
                        z as int,
                        i,
                        w1 as int,
                        w2 as int,
                        x as int,
                        y as int,
                    ),
            decreases 81 - pivot,
        {
            if pivot != w1 && pivot != w2 && cells_see(pivot, w1) && cells_see(pivot, w2)
                && self.live_count(pivot) == 2 && self.is_live(pivot, x) && self.is_live(pivot, y) {
                assert(xy_wing(
                    self@,
                    c as int,
                    z as int,
                    pivot as int,
                    w1 as int,
                    w2 as int,
                    x as int,
                    y as int,
                ));
                return true;
            }
            pivot += 1;
        }
        false
    }

    /// Whether the wings `w1` (holding `x` and `z`) and `w2` belong to an
    /// XY-Wing against candidate `z` of `c`.
    #[verifier::loop_isolation(false)]
    fn xy_wing_fourth(&self, c: usize, z: u8, w1: usize, w2: usize, x: u8) -> (found: bool)
        requires
            self.wf(),
            c < 81,
            w1 < 81,
            w2 < 81,
            1 <= z <= 9,
            1 <= x <= 9,
        ensures
            found == exists|pivot: int, y: int|
                xy_wing(self@, c as int, z as int, pivot, w1 as int, w2 as int, x as int, y),
    {
        if w1 == c || w2 == c || w1 == w2 || !cells_see(c, w2) || self.live_count(w2) != 2
            || !self.is_live(w2, z) {
            return false;
        }
        let mut y: u8 = 1;
        while y <= 9
            invariant
                1 <= y <= 10,
                forall|pivot: int, i: int|
                    i < y ==> !xy_wing(
                        self@,
                        c as int,
                        z as int,
                        pivot,
                        w1 as int,
                        w2 as int,
                        x as int,
                        i,
                    ),
            decreases 10 - y,
        {
            if self.xy_wing_pivot(c, z, w1, w2, x, y) {
                return true;
            }
            y += 1;
        }
        false
    }

    /// Whether wing `w1`, holding `x` and `z`, belongs to an XY-Wing
    /// against candidate `z` of `c`.
    #[verifier::loop_isolation(false)]
    fn xy_wing_third(&self, c: usize, z: u8, w1: usize, x: u8) -> (found: bool)
        requires
            self.wf(),
            c < 81,
            w1 < 81,
            1 <= z <= 9,
            1 <= x <= 9,
        ensures
            found == exists|pivot: int, w2: int, y: int|
                xy_wing(self@, c as int, z as int, pivot, w1 as int, w2, x as int, y),
    {
        if w1 == c || !cells_see(c, w1) || x == z || self.live_count(w1) != 2 || !self.is_live(
            w1,
            x,
        ) || !self.is_live(w1, z) {
            return false;
        }
        let mut w2: usize = 0;
        while w2 < BOARD_SIZE
            invariant
                w2 <= 81,
                forall|pivot: int, i: int, y: int|
                    0 <= i < w2 ==> !xy_wing(
                        self@,
                        c as int,
                        z as int,
                        pivot,
                        w1 as int,
                        i,
                        x as int,
                        y,
                    ),
            decreases 81 - w2,
        {
            if self.xy_wing_fourth(c, z, w1, w2, x) {
                return true;
            }
            w2 += 1;
        }
        false
    }

    /// Whether cell `w1` is a wing of an XY-Wing against candidate `z` of `c`.
    #[verifier::loop_isolation(false)]
    fn xy_wing_second(&self, c: usize, z: u8, w1: usize) -> (found: bool)
        requires
            self.wf(),
            c < 81,
            w1 < 81,
            1 <= z <= 9,
        ensures
            found == exists|pivot: int, w2: int, x: int, y: int|
                xy_wing(self@, c as int, z as int, pivot, w1 as int, w2, x, y),
    {
        if w1 == c || !cells_see(c, w1) || self.live_count(w1) != 2 || !self.is_live(w1, z) {
            return false;
        }
        let mut x: u8 = 1;
        while x <= 9
            invariant
                1 <= x <= 10,
                forall|pivot: int, w2: int, i: int, y: int|
                    i < x ==> !xy_wing(self@, c as int, z as int, pivot, w1 as int, w2, i, y),
            decreases 10 - x,
        {
            if self.xy_wing_third(c, z, w1, x) {
                return true;
            }
            x += 1;
        }
        false
    }

    /// Whether an XY-Wing rules candidate `z` out for cell `c`: `c` sees two
    /// wings holding `{x, z}` and `{y, z}`, and a pivot holding `{x, y}`
    /// sees both wings.
    #[verifier::loop_isolation(false)]
    pub fn xy_wing_strikes(&self, c: usize, z: u8) -> (hit: bool)
        requires
            self.wf(),
            c < 81,
            1 <= z <= 9,
        ensures
            hit == strikes(SolvingTechnique::XYWing, self@, c as int, z as int),
    {
        let mut w1: usize = 0;
        while w1 < BOARD_SIZE
            invariant
                w1 <= 81,
                forall|pivot: int, i: int, w2: int, x: int, y: int|
                    0 <= i < w1 ==> !xy_wing(self@, c as int, z as int, pivot, i, w2, x, y),
            decreases 81 - w1,
        {
            if self.xy_wing_second(c, z, w1) {
                return true;
            }
            w1 += 1;
        }
        false
    }
}

} // verus!
