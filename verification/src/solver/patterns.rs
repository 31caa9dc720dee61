//! What each technique of the ladder looks for, and what it does to the
//! state, stated as mathematics.
//!
//! A sweep of a technique reads one state and acts on everything it finds
//! there at once: a placing technique fills every cell it can decide, an
//! eliminating technique strikes every candidate that one of its patterns
//! rules out.

use vstd::prelude::*;
use crate::rules::{box_of, col_of, in_grid, is_digit, row_of, sees};
use crate::solver::SolverState;
use crate::types::SolvingTechnique;

verus! {

/// Cells `a` and `b` lie in the same unit of the given kind: 0 for rows, 1
/// for columns, 2 for boxes.
pub open spec fn in_unit(kind: int, a: int, b: int) -> bool {
    if kind == 0 {
        row_of(a) == row_of(b)
    } else if kind == 1 {
        col_of(a) == col_of(b)
    } else {
        box_of(a) == box_of(b)
    }
}

/// The two cells hold the same candidates.
pub open spec fn same_live(st: SolverState, a: int, b: int) -> bool {
    forall|x: int| is_digit(x) ==> (#[trigger] st.live.contains((a, x)) <==> st.live.contains((b, x)))
}

/// Digit `x` is live in no cell of the unit of `c` other than `c` and `b`.
pub open spec fn confined(st: SolverState, kind: int, c: int, b: int, x: int) -> bool {
    forall|j: int|
        in_grid(j) && j != c && j != b && #[trigger] in_unit(kind, c, j) ==> !st.live.contains(
            (j, x),
        )
}

/// Naked single: `x` is the only candidate of cell `c`.
pub open spec fn naked_single(st: SolverState, c: int, x: int) -> bool {
    st.live.contains((c, x)) && st.count(c) == 1
}

/// Hidden single: `x` is a candidate of cell `c` and of no other cell in
/// the row, or in the column, or in the box of `c`.
pub open spec fn hidden_single(st: SolverState, c: int, x: int) -> bool {
    st.live.contains((c, x)) && (confined(st, 0, c, c, x) || confined(st, 1, c, c, x) || confined(
        st,
        2,
        c,
        c,
        x,
    ))
}

/// Technique `t` decides that digit `x` goes into cell `c`.
pub open spec fn places(t: SolvingTechnique, st: SolverState, c: int, x: int) -> bool {
    match t {
        SolvingTechnique::NakedSingle => naked_single(st, c, x),
        SolvingTechnique::HiddenSingle => hidden_single(st, c, x),
        _ => false,
    }
}

/// The least digit from `from` up that technique `t` places in cell `c`.
pub open spec fn first_placeable(t: SolvingTechnique, st: SolverState, c: int, from: int) -> Option<
    u8,
>
    decreases 10 - from,
{
    if from < 1 || from > 9 {
        None
    } else if places(t, st, c, from) {
        Some(from as u8)
    } else {
        first_placeable(t, st, c, from + 1)
    }
}

/// The digit that a sweep of technique `t` puts into cell `c`, if any.
pub open spec fn placement(t: SolvingTechnique, st: SolverState, c: int) -> Option<u8> {
    first_placeable(t, st, c, 1)
}

/// Naked pair: cells `a` and `b` share a unit with `c`, hold the same two
/// candidates, and `x` is one of them.
pub open spec fn naked_pair(st: SolverState, c: int, x: int, a: int, b: int, kind: int) -> bool {
    &&& in_grid(a) && in_grid(b) && 0 <= kind < 3
    &&& a != b && a != c && b != c
    &&& in_unit(kind, c, a) && in_unit(kind, c, b)
    &&& st.count(a) == 2 && st.count(b) == 2
    &&& same_live(st, a, b)
    &&& st.live.contains((a, x))
}

/// Hidden pair: in a unit of `c`, the digits `y` and `z` are candidates of
/// `c` and `b` and of no other cell, and `x` is a third digit.
pub open spec fn hidden_pair(
    st: SolverState,
    c: int,
    x: int,
    b: int,
    y: int,
    z: int,
    kind: int,
) -> bool {
    &&& in_grid(b) && 0 <= kind < 3 && is_digit(y) && is_digit(z)
    &&& b != c && in_unit(kind, c, b)
    &&& y < z && x != y && x != z
    &&& st.live.contains((c, y)) && st.live.contains((c, z))
    &&& st.live.contains((b, y)) && st.live.contains((b, z))
    &&& confined(st, kind, c, b, y)
    &&& confined(st, kind, c, b, z)
}

/// Within the box of `p`, digit `x` is live only on the line of `p`: its
/// row where `kind` is 0, its column where `kind` is 1.
pub open spec fn box_on_line(st: SolverState, kind: int, p: int, x: int) -> bool {
    forall|j: int|
        in_grid(j) && box_of(j) == box_of(p) && #[trigger] st.live.contains((j, x)) ==> in_unit(
            kind,
            p,
            j,
        )
}

/// Box-line reduction: `p` and `q` are two places of `x` in a box other
/// than that of `c`, every place of `x` in that box lies on the line of
/// `c`.
pub open spec fn box_line(st: SolverState, c: int, x: int, p: int, q: int, kind: int) -> bool {
    &&& in_grid(p) && in_grid(q) && 0 <= kind < 2
    &&& p != q && box_of(p) == box_of(q) && box_of(p) != box_of(c)
    &&& in_unit(kind, c, p)
    &&& st.live.contains((p, x)) && st.live.contains((q, x))
    &&& box_on_line(st, kind, p, x)
}

/// On the line of `p` (its row where `kind` is 0, its column where `kind`
/// is 1), digit `x` is live only inside the box of `p`.
pub open spec fn line_in_box(st: SolverState, kind: int, p: int, x: int) -> bool {
    forall|j: int|
        in_grid(j) && in_unit(kind, p, j) && #[trigger] st.live.contains((j, x)) ==> box_of(j)
            == box_of(p)
}

/// Pointing pair: `p` and `q` are two places of `x` on a line that misses
/// `c`, and every place of `x` on that line lies in the box of `c`.
pub open spec fn pointing_pair(st: SolverState, c: int, x: int, p: int, q: int, kind: int) -> bool {
    &&& in_grid(p) && in_grid(q) && 0 <= kind < 2
    &&& p != q && in_unit(kind, p, q) && !in_unit(kind, p, c)
    &&& box_of(p) == box_of(c)
    &&& st.live.contains((p, x)) && st.live.contains((q, x))
    &&& line_in_box(st, kind, p, x)
}

/// On the line of `p`, digit `x` is live at `p`, `q` and `r` only.
pub open spec fn line_is_triple(
    st: SolverState,
    kind: int,
    p: int,
    q: int,
    r: int,
    x: int,
) -> bool {
    forall|j: int|
        in_grid(j) && in_unit(kind, p, j) && #[trigger] st.live.contains((j, x)) ==> j == p || j
            == q || j == r
}

/// Pointing triple: `p`, `q` and `r` are the three places of `x` on a line
/// that misses `c`, and all three lie in the box of `c`.
pub open spec fn pointing_triple(
    st: SolverState,
    c: int,
    x: int,
    p: int,
    q: int,
    r: int,
    kind: int,
) -> bool {
    &&& in_grid(p) && in_grid(q) && in_grid(r) && 0 <= kind < 2
    &&& p < q < r
    &&& in_unit(kind, p, q) && in_unit(kind, p, r) && !in_unit(kind, p, c)
    &&& box_of(p) == box_of(c) && box_of(q) == box_of(c) && box_of(r) == box_of(c)
    &&& st.live.contains((p, x)) && st.live.contains((q, x)) && st.live.contains((r, x))
    &&& line_is_triple(st, kind, p, q, r, x)
}

/// On the line of `p`, digit `x` is live at `p` and `q` only.
pub open spec fn line_is_pair(st: SolverState, kind: int, p: int, q: int, x: int) -> bool {
    forall|j: int|
        in_grid(j) && in_unit(kind, p, j) && #[trigger] st.live.contains((j, x)) ==> j == p || j
            == q
}

/// X-Wing: two lines (rows where `kind` is 0, columns where it is 1) have
/// `x` at two places each, `p1`, `q1` and `p2`, `q2`, on the same two
/// crossing lines; `c` lies on the crossing line of `p1` and `p2`, and on
/// neither of the two lines.
pub open spec fn x_wing(
    st: SolverState,
    c: int,
    x: int,
    p1: int,
    q1: int,
    p2: int,
    q2: int,
    kind: int,
) -> bool {
    &&& in_grid(p1) && in_grid(q1) && in_grid(p2) && in_grid(q2) && 0 <= kind < 2
    &&& in_unit(1 - kind, c, p1) && in_unit(1 - kind, c, p2) && in_unit(1 - kind, q1, q2)
    &&& in_unit(kind, p1, q1) && in_unit(kind, p2, q2)
    &&& p1 != q1 && !in_unit(kind, p1, p2) && !in_unit(kind, p1, c) && !in_unit(kind, p2, c)
    &&& st.live.contains((p1, x)) && st.live.contains((q1, x))
    &&& st.live.contains((p2, x)) && st.live.contains((q2, x))
    &&& line_is_pair(st, kind, p1, q1, x)
    &&& line_is_pair(st, kind, p2, q2, x)
}

/// On the line of `a`, digit `x` is live only where the line crosses the
/// crossing lines of `c`, `b2` and `b3`.
pub open spec fn line_in_three(
    st: SolverState,
    kind: int,
    a: int,
    c: int,
    b2: int,
    b3: int,
    x: int,
) -> bool {
    forall|j: int|
        in_grid(j) && in_unit(kind, a, j) && #[trigger] st.live.contains((j, x)) ==> in_unit(
            1 - kind,
            j,
            c,
        ) || in_unit(1 - kind, j, b2) || in_unit(1 - kind, j, b3)
}

/// Digit `x` is live in two cells at least of the line of `a`.
pub open spec fn line_has_two(st: SolverState, kind: int, a: int, x: int) -> bool {
    exists|p: int, q: int|
        #![trigger st.live.contains((p, x)), st.live.contains((q, x))]
        in_grid(p) && in_grid(q) && p < q && in_unit(kind, a, p) && in_unit(kind, a, q)
            && st.live.contains((p, x)) && st.live.contains((q, x))
}

/// Swordfish: three lines (rows where `kind` is 0, columns where it is 1),
/// marked by their cells `a1`, `a2`, `a3` on the crossing line of `c`, have
/// `x` at two places at least each, and all of these places on three
/// crossing lines: that of `c` and those of `b2` and `b3`, two cells on the
/// line of `c`. The line of `c` is none of the three.
pub open spec fn swordfish(
    st: SolverState,
    c: int,
    x: int,
    a1: int,
    a2: int,
    a3: int,
    b2: int,
    b3: int,
    kind: int,
) -> bool {
    &&& in_grid(a1) && in_grid(a2) && in_grid(a3) && in_grid(b2) && in_grid(b3) && 0 <= kind < 2
    &&& in_unit(1 - kind, c, a1) && in_unit(1 - kind, c, a2) && in_unit(1 - kind, c, a3)
    &&& !in_unit(kind, a1, c) && !in_unit(kind, a2, c) && !in_unit(kind, a3, c)
    &&& !in_unit(kind, a1, a2) && !in_unit(kind, a1, a3) && !in_unit(kind, a2, a3)
    &&& in_unit(kind, c, b2) && in_unit(kind, c, b3)
    &&& !in_unit(1 - kind, c, b2) && !in_unit(1 - kind, c, b3) && !in_unit(1 - kind, b2, b3)
    &&& line_has_two(st, kind, a1, x) && line_has_two(st, kind, a2, x) && line_has_two(
        st,
        kind,
        a3,
        x,
    )
    &&& line_in_three(st, kind, a1, c, b2, b3, x)
    &&& line_in_three(st, kind, a2, c, b2, b3, x)
    &&& line_in_three(st, kind, a3, c, b2, b3, x)
}

/// XY-Wing: the pivot holds `{x, y}`, wing `w1` holds `{x, z}`, wing `w2`
/// holds `{y, z}`, the pivot sees both wings, and `c` sees both wings.
pub open spec fn xy_wing(
    st: SolverState,
    c: int,
    z: int,
    pivot: int,
    w1: int,
    w2: int,
    x: int,
    y: int,
) -> bool {
    &&& in_grid(pivot) && in_grid(w1) && in_grid(w2) && is_digit(x) && is_digit(y)
    &&& w1 != c && w2 != c && w1 != w2 && pivot != w1 && pivot != w2
    &&& sees(pivot, w1) && sees(pivot, w2) && sees(c, w1) && sees(c, w2)
    &&& x != y && x != z && y != z
    &&& st.count(pivot) == 2 && st.count(w1) == 2 && st.count(w2) == 2
    &&& st.live.contains((pivot, x)) && st.live.contains((pivot, y))
    &&& st.live.contains((w1, x)) && st.live.contains((w1, z))
    &&& st.live.contains((w2, y)) && st.live.contains((w2, z))
}

/// A pattern of technique `t` rules digit `x` out for cell `c`.
///
/// The techniques that place digits strike nothing by themselves, and
/// neither do the techniques beyond the ladder.
pub open spec fn strikes(t: SolvingTechnique, st: SolverState, c: int, x: int) -> bool {
    match t {
        SolvingTechnique::NakedPair => exists|a: int, b: int, kind: int|
            naked_pair(st, c, x, a, b, kind),
        SolvingTechnique::HiddenPair => exists|b: int, y: int, z: int, kind: int|
            hidden_pair(st, c, x, b, y, z, kind),
        SolvingTechnique::BoxLineReduction => exists|p: int, q: int, kind: int|
            box_line(st, c, x, p, q, kind),
        SolvingTechnique::PointingPairs => exists|p: int, q: int, kind: int|
            pointing_pair(st, c, x, p, q, kind),
        SolvingTechnique::XWing => exists|p1: int, q1: int, p2: int, q2: int, kind: int|
            x_wing(st, c, x, p1, q1, p2, q2, kind),
        SolvingTechnique::PointingTriples => exists|p: int, q: int, r: int, kind: int|
            pointing_triple(st, c, x, p, q, r, kind),
        SolvingTechnique::Swordfish => exists|
            a1: int,
            a2: int,
            a3: int,
            b2: int,
            b3: int,
            kind: int,
        | swordfish(st, c, x, a1, a2, a3, b2, b3, kind),
        SolvingTechnique::XYWing => exists|pivot: int, w1: int, w2: int, x1: int, y1: int|
            xy_wing(st, c, x, pivot, w1, w2, x1, y1),
        _ => false,
    }
}

/// The technique fills cells (as opposed to striking candidates).
pub open spec fn is_placing(t: SolvingTechnique) -> bool {
    t == SolvingTechnique::NakedSingle || t == SolvingTechnique::HiddenSingle
}

/// The state after the cells before `n` have received their placements.
pub open spec fn placed_upto(t: SolvingTechnique, st: SolverState, n: int) -> SolverState {
    SolverState {
        board: Seq::new(
            81,
            |c: int|
                if c < n && placement(t, st, c) is Some {
                    placement(t, st, c)
                } else {
                    st.board[c]
                },
        ),
        live: Set::new(
            |p: (int, int)|
                st.live.contains(p) && !(p.0 < n && placement(t, st, p.0) is Some) && !exists|
                    j: int,
                |
                    0 <= j < n && sees(p.0, j) && #[trigger] placement(t, st, j) == Some(p.1 as u8),
        ),
        used: st.used,
    }
}

/// The position of a live pair in the order in which a sweep visits them.
pub open spec fn pair_index(c: int, x: int) -> int {
    c * 9 + (x - 1)
}

/// The state after the pairs before position `n` have been struck where
/// technique `t` rules them out.
pub open spec fn struck_upto(t: SolvingTechnique, st: SolverState, n: int) -> SolverState {
    SolverState {
        board: st.board,
        live: Set::new(
            |p: (int, int)|
                st.live.contains(p) && !(pair_index(p.0, p.1) < n && strikes(t, st, p.0, p.1)),
        ),
        used: st.used,
    }
}

/// What one sweep of technique `t` makes of the state, before the
/// technique is recorded.
pub open spec fn swept(t: SolvingTechnique, st: SolverState) -> SolverState {
    if is_placing(t) {
        placed_upto(t, st, 81)
    } else {
        struck_upto(t, st, 729)
    }
}

/// A sweep of technique `t` changes the state.
pub open spec fn makes_progress(t: SolvingTechnique, st: SolverState) -> bool {
    if is_placing(t) {
        exists|c: int| in_grid(c) && (#[trigger] placement(t, st, c)) is Some
    } else {
        exists|c: int, x: int| #[trigger] st.live.contains((c, x)) && strikes(t, st, c, x)
    }
}

/// The state after one application of technique `t`: swept and recorded
/// where the sweep makes progress, untouched where it does not.
pub open spec fn applied(t: SolvingTechnique, st: SolverState) -> SolverState {
    if makes_progress(t, st) {
        swept(t, st).with_used(t)
    } else {
        st
    }
}

/// The ladder of techniques, weakest first.
pub open spec fn ladder() -> Seq<SolvingTechnique> {
    seq![
        SolvingTechnique::NakedSingle,
        SolvingTechnique::HiddenSingle,
        SolvingTechnique::NakedPair,
        SolvingTechnique::HiddenPair,
        SolvingTechnique::BoxLineReduction,
        SolvingTechnique::PointingPairs,
        SolvingTechnique::XWing,
        SolvingTechnique::PointingTriples,
        SolvingTechnique::Swordfish,
        SolvingTechnique::XYWing,
    ]
}

/// The first rung from `lo` up to (not including) `hi` that makes progress.
pub open spec fn first_rung(st: SolverState, lo: int, hi: int) -> Option<SolvingTechnique>
    decreases hi - lo,
{
    if lo < 0 || lo >= hi || lo >= 10 {
        None
    } else if makes_progress(ladder()[lo], st) {
        Some(ladder()[lo])
    } else {
        first_rung(st, lo + 1, hi)
    }
}

/// One round: the weakest technique among the rungs `lo` to `hi` that makes
/// progress is applied; without one the state stays.
pub open spec fn round(st: SolverState, lo: int, hi: int) -> SolverState {
    match first_rung(st, lo, hi) {
        Some(t) => applied(t, st),
        None => st,
    }
}

/// Rounds over the whole ladder, repeated until none makes progress or the
/// fuel runs out.
pub open spec fn run(st: SolverState, fuel: nat) -> SolverState
    decreases fuel,
{
    if fuel == 0 || first_rung(st, 0, 10) is None {
        st
    } else {
        run(round(st, 0, 10), (fuel - 1) as nat)
    }
}

/// The state in which the ladder comes to rest. Every round that makes
/// progress removes a live pair, so as many rounds as there are live pairs
/// suffice.
pub open spec fn at_rest(st: SolverState) -> SolverState {
    run(st, st.total() as nat)
}

} // verus!
