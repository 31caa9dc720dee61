//! The techniques are sound: a completion of the puzzle that agrees with
//! the state of the solver still agrees with it after any technique has
//! been applied. The ladder therefore never places a digit that some
//! completion of the puzzle does not have.

use vstd::prelude::*;
use vstd::set_lib::{lemma_int_range, lemma_len_subset, set_int_range};
use crate::grid::{
    box_cell, col_cell, lemma_box_cells, lemma_box_of_coords, lemma_col_cells, lemma_row_cells,
    row_cell, slot_in_box,
};
use crate::rules::{
    box_of, col_of, complete, conflicts, digits_in_range, extends, in_grid, is_digit,
    is_solution, peers, placement_free, row_of, sees, solves,
};
use crate::solver::ladder::lemma_run_comes_to_rest;
use crate::solver::patterns::{
    applied, at_rest, box_line, confined, first_rung, hidden_pair, hidden_single, in_unit,
    is_placing, line_has_two, line_in_three, line_is_pair, makes_progress, naked_pair, naked_single, placement,
    places, pointing_pair, pointing_triple, round, run, strikes, swept, swordfish,
    x_wing, xy_wing,
};
use crate::solver::singles::lemma_placement_places;
use crate::solver::SolverState;
use crate::types::SolvingTechnique;

verus! {

/// The finished grid `s` agrees with the state: it keeps the filled cells,
/// and its digit is a live candidate in every empty cell.
pub open spec fn fits(s: Seq<Option<u8>>, st: SolverState) -> bool {
    &&& is_solution(s)
    &&& extends(s, st.board)
    &&& forall|c: int|
        in_grid(c) && st.board[c] is None ==> st.live.contains((c, (#[trigger] s[c])->0 as int))
}

/// In a finished grid two different cells that see each other hold
/// different digits.
pub proof fn lemma_solution_distinct(s: Seq<Option<u8>>, i: int, j: int)
    requires
        is_solution(s),
        in_grid(i),
        in_grid(j),
        i != j,
        sees(i, j),
    ensures
        s[i] is Some,
        s[j] is Some,
        is_digit(s[i]->0 as int),
        is_digit(s[j]->0 as int),
        s[i] != s[j],
{
    assert(!conflicts(s, i));
    assert(peers(i, j));
}

/// The `k`-th cell of the unit of the given kind that holds cell `c`.
pub open spec fn unit_cell(kind: int, c: int, k: int) -> int {
    if kind == 0 {
        row_cell(row_of(c), k)
    } else if kind == 1 {
        col_cell(col_of(c), k)
    } else {
        box_cell(box_of(c), k)
    }
}

/// The nine cells of a unit are cells of the grid, lie in the unit, and
/// differ from each other; every cell of the unit is one of them.
pub proof fn lemma_unit_cells(kind: int, c: int)
    requires
        in_grid(c),
        0 <= kind < 3,
    ensures
        forall|k: int|
            0 <= k < 9 ==> in_grid(#[trigger] unit_cell(kind, c, k)) && in_unit(
                kind,
                c,
                unit_cell(kind, c, k),
            ),
        forall|k: int, m: int|
            0 <= k < 9 && 0 <= m < 9 && k != m ==> unit_cell(kind, c, k) != unit_cell(kind, c, m),
        forall|j: int|
            in_grid(j) && in_unit(kind, c, j) ==> exists|k: int|
                0 <= k < 9 && j == #[trigger] unit_cell(kind, c, k),
{
    lemma_box_of_coords(row_of(c), col_of(c));
    lemma_row_cells(row_of(c));
    lemma_col_cells(col_of(c));
    lemma_box_cells(box_of(c));
    assert forall|j: int| in_grid(j) && in_unit(kind, c, j) implies exists|k: int|
        0 <= k < 9 && j == #[trigger] unit_cell(kind, c, k) by {
        if kind == 0 {
            assert(j == unit_cell(kind, c, col_of(j)));
        } else if kind == 1 {
            assert(j == unit_cell(kind, c, row_of(j)));
        } else {
            assert(j == unit_cell(kind, c, slot_in_box(j)));
        }
    }
    assert forall|k: int, m: int|
        0 <= k < 9 && 0 <= m < 9 && k != m implies unit_cell(kind, c, k) != unit_cell(
        kind,
        c,
        m,
    ) by {
        if kind == 2 {
            assert(slot_in_box(box_cell(box_of(c), k)) == k);
            assert(slot_in_box(box_cell(box_of(c), m)) == m);
        }
    }
}

/// Cells of one unit see each other.
pub proof fn lemma_unit_sees(kind: int, a: int, b: int)
    requires
        0 <= kind < 3,
        in_unit(kind, a, b),
    ensures
        sees(a, b),
{
}

/// Every unit of a finished grid holds every digit.
pub proof fn lemma_unit_has_digit(s: Seq<Option<u8>>, kind: int, c: int, d: int)
    requires
        is_solution(s),
        in_grid(c),
        0 <= kind < 3,
        is_digit(d),
    ensures
        exists|j: int| in_grid(j) && in_unit(kind, c, j) && #[trigger] s[j] == Some(d as u8),
{
    lemma_unit_cells(kind, c);
    let vals = Seq::new(9, |k: int| s[unit_cell(kind, c, k)]->0 as int);
    if !exists|k: int| 0 <= k < 9 && vals[k] == d {
        assert forall|k: int, m: int|
            0 <= k < vals.len() && 0 <= m < vals.len() && k != m implies vals[k] != vals[m] by {
            let a = unit_cell(kind, c, k);
            let b = unit_cell(kind, c, m);
            assert(in_unit(kind, c, a) && in_unit(kind, c, b));
            lemma_solution_distinct(s, a, b);
        }
        vals.unique_seq_to_set();
        let range = set_int_range(1, 10);
        lemma_int_range(1, 10);
        let rest = range.remove(d);
        assert forall|v: int| vals.to_set().contains(v) implies rest.contains(v) by {
            let k = choose|k: int| 0 <= k < vals.len() && vals[k] == v;
            let a = unit_cell(kind, c, k);
            assert(in_grid(a));
            assert(s[a] is Some);
            assert(1 <= s[a]->0 <= 9);
        }
        assert(vals.to_set().subset_of(rest));
        lemma_len_subset(vals.to_set(), rest);
        assert(false);
    }
    let k = choose|k: int| 0 <= k < 9 && vals[k] == d;
    let j = unit_cell(kind, c, k);
    assert(in_grid(j) && in_unit(kind, c, j));
    assert(s[j] is Some);
    assert(s[j] == Some(d as u8));
}

/// A cell with one candidate has no second.
pub proof fn lemma_single_candidate(st: SolverState, c: int, x: int, y: int)
    requires
        st.count(c) == 1,
        is_digit(x),
        is_digit(y),
        st.live.contains((c, x)),
        st.live.contains((c, y)),
    ensures
        x == y,
{
    reveal_with_fuel(SolverState::count_upto, 10);
}

/// A cell with two candidates, `x` and `y`, has no third.
pub proof fn lemma_two_candidates(st: SolverState, c: int, x: int, y: int, z: int)
    requires
        st.count(c) == 2,
        is_digit(x),
        is_digit(y),
        is_digit(z),
        x != y,
        st.live.contains((c, x)),
        st.live.contains((c, y)),
        st.live.contains((c, z)),
    ensures
        z == x || z == y,
{
    reveal_with_fuel(SolverState::count_upto, 10);
}

/// The digit of a grid that fits the state, in an empty cell, is a live
/// candidate there.
pub proof fn lemma_fitting_digit_is_live(s: Seq<Option<u8>>, st: SolverState, c: int)
    requires
        st.wf(),
        fits(s, st),
        in_grid(c),
    ensures
        s[c] is Some,
        is_digit(s[c]->0 as int),
        st.board[c] is None ==> st.live.contains((c, s[c]->0 as int)),
        st.board[c] is Some ==> s[c] == st.board[c],
{
    assert(s[c] is Some);
}

/// A digit that is live in cell `c` and stands, in a fitting grid, in a
/// cell `j` that `c` sees, stands in an empty cell.
pub proof fn lemma_seen_digit_is_in_empty_cell(
    s: Seq<Option<u8>>,
    st: SolverState,
    c: int,
    j: int,
    x: int,
)
    requires
        st.wf(),
        fits(s, st),
        in_grid(c),
        in_grid(j),
        sees(c, j),
        st.live.contains((c, x)),
        s[j] == Some(x as u8),
    ensures
        st.board[j] is None,
        st.live.contains((j, x)),
{
    if st.board[j] is Some {
        assert(s[j] == st.board[j]);
        assert(st.board[j] != Some(x as u8));
    }
    assert(st.live.contains((j, s[j]->0 as int)));
}

/// A naked single is right: the fitting grid holds the digit there.
pub proof fn lemma_naked_single_sound(s: Seq<Option<u8>>, st: SolverState, c: int, x: int)
    requires
        st.wf(),
        fits(s, st),
        in_grid(c),
        is_digit(x),
        naked_single(st, c, x),
    ensures
        s[c] == Some(x as u8),
{
    lemma_fitting_digit_is_live(s, st, c);
    lemma_single_candidate(st, c, x, s[c]->0 as int);
}

/// A hidden single is right: the fitting grid holds the digit there.
pub proof fn lemma_hidden_single_sound(s: Seq<Option<u8>>, st: SolverState, c: int, x: int)
    requires
        st.wf(),
        fits(s, st),
        in_grid(c),
        is_digit(x),
        hidden_single(st, c, x),
    ensures
        s[c] == Some(x as u8),
{
    let kind = if confined(st, 0, c, c, x) {
        0int
    } else if confined(st, 1, c, c, x) {
        1int
    } else {
        2int
    };
    assert(confined(st, kind, c, c, x));
    lemma_unit_has_digit(s, kind, c, x);
    let j = choose|j: int| in_grid(j) && in_unit(kind, c, j) && #[trigger] s[j] == Some(x as u8);
    if j != c {
        lemma_unit_sees(kind, c, j);
        lemma_seen_digit_is_in_empty_cell(s, st, c, j, x);
        assert(in_unit(kind, c, j));
    }
}

/// What a placing technique decides is right.
pub proof fn lemma_placement_sound(t: SolvingTechnique, s: Seq<Option<u8>>, st: SolverState, c: int)
    requires
        st.wf(),
        fits(s, st),
        in_grid(c),
        placement(t, st, c) is Some,
    ensures
        s[c] == placement(t, st, c),
        st.board[c] is None,
{
    lemma_placement_places(t, st, c, 1);
    let d = placement(t, st, c)->0 as int;
    assert(places(t, st, c, d));
    match t {
        SolvingTechnique::NakedSingle => {
            lemma_naked_single_sound(s, st, c, d);
        },
        SolvingTechnique::HiddenSingle => {
            lemma_hidden_single_sound(s, st, c, d);
        },
        _ => {},
    }
}

/// A naked pair is right: the fitting grid does not hold the struck digit.
pub proof fn lemma_naked_pair_sound(
    s: Seq<Option<u8>>,
    st: SolverState,
    c: int,
    x: int,
    a: int,
    b: int,
    kind: int,
)
    requires
        st.wf(),
        fits(s, st),
        in_grid(c),
        is_digit(x),
        naked_pair(st, c, x, a, b, kind),
    ensures
        s[c] != Some(x as u8),
{
    lemma_count_means_empty(st, a);
    lemma_count_means_empty(st, b);
    lemma_fitting_digit_is_live(s, st, a);
    lemma_fitting_digit_is_live(s, st, b);
    let da = s[a]->0 as int;
    let db = s[b]->0 as int;
    assert(sees(a, b));
    lemma_solution_distinct(s, a, b);
    assert(st.live.contains((b, db)));
    assert(st.live.contains((a, db)));
    lemma_two_candidates(st, a, da, db, x);
    lemma_unit_sees(kind, c, a);
    lemma_unit_sees(kind, c, b);
    lemma_solution_distinct(s, c, a);
    lemma_solution_distinct(s, c, b);
}

/// A cell with candidates is empty.
pub proof fn lemma_count_means_empty(st: SolverState, c: int)
    requires
        st.wf(),
        st.count(c) > 0,
    ensures
        st.board[c] is None,
        in_grid(c),
{
    reveal_with_fuel(SolverState::count_upto, 10);
    let x = choose|x: int| is_digit(x) && st.live.contains((c, x));
    assert(st.live.contains((c, x)));
}

/// A digit that, in a unit of `c`, is live in `c` and `b` only stands in
/// `c` or in `b` in every fitting grid.
pub proof fn lemma_confined_digit(
    s: Seq<Option<u8>>,
    st: SolverState,
    kind: int,
    c: int,
    b: int,
    y: int,
)
    requires
        st.wf(),
        fits(s, st),
        in_grid(c),
        in_grid(b),
        0 <= kind < 3,
        is_digit(y),
        st.live.contains((c, y)),
        confined(st, kind, c, b, y),
    ensures
        s[c] == Some(y as u8) || s[b] == Some(y as u8),
{
    lemma_unit_has_digit(s, kind, c, y);
    let j = choose|j: int| in_grid(j) && in_unit(kind, c, j) && #[trigger] s[j] == Some(y as u8);
    if j != c && j != b {
        lemma_unit_sees(kind, c, j);
        lemma_seen_digit_is_in_empty_cell(s, st, c, j, y);
        assert(in_unit(kind, c, j));
    }
}

/// A hidden pair is right: the fitting grid does not hold the struck digit.
pub proof fn lemma_hidden_pair_sound(
    s: Seq<Option<u8>>,
    st: SolverState,
    c: int,
    x: int,
    b: int,
    y: int,
    z: int,
    kind: int,
)
    requires
        st.wf(),
        fits(s, st),
        in_grid(c),
        is_digit(x),
        hidden_pair(st, c, x, b, y, z, kind),
    ensures
        s[c] != Some(x as u8),
{
    lemma_confined_digit(s, st, kind, c, b, y);
    lemma_confined_digit(s, st, kind, c, b, z);
}

/// A box-line reduction is right.
pub proof fn lemma_box_line_sound(
    s: Seq<Option<u8>>,
    st: SolverState,
    c: int,
    x: int,
    p: int,
    q: int,
    kind: int,
)
    requires
        st.wf(),
        fits(s, st),
        in_grid(c),
        is_digit(x),
        box_line(st, c, x, p, q, kind),
    ensures
        s[c] != Some(x as u8),
{
    lemma_unit_has_digit(s, 2, p, x);
    let j = choose|j: int| in_grid(j) && in_unit(2, p, j) && #[trigger] s[j] == Some(x as u8);
    lemma_unit_sees(2, p, j);
    lemma_seen_digit_is_in_empty_cell(s, st, p, j, x);
    assert(in_unit(kind, p, j));
    assert(in_unit(kind, c, j));
    lemma_unit_sees(kind, c, j);
    if s[c] == Some(x as u8) {
        lemma_solution_distinct(s, c, j);
    }
}

/// A pointing pair is right.
pub proof fn lemma_pointing_pair_sound(
    s: Seq<Option<u8>>,
    st: SolverState,
    c: int,
    x: int,
    p: int,
    q: int,
    kind: int,
)
    requires
        st.wf(),
        fits(s, st),
        in_grid(c),
        is_digit(x),
        pointing_pair(st, c, x, p, q, kind),
    ensures
        s[c] != Some(x as u8),
{
    lemma_unit_has_digit(s, kind, p, x);
    let j = choose|j: int| in_grid(j) && in_unit(kind, p, j) && #[trigger] s[j] == Some(x as u8);
    lemma_unit_sees(kind, p, j);
    lemma_seen_digit_is_in_empty_cell(s, st, p, j, x);
    assert(box_of(j) == box_of(c));
    if s[c] == Some(x as u8) {
        lemma_solution_distinct(s, c, j);
    }
}

/// A pointing triple is right.
pub proof fn lemma_pointing_triple_sound(
    s: Seq<Option<u8>>,
    st: SolverState,
    c: int,
    x: int,
    p: int,
    q: int,
    r: int,
    kind: int,
)
    requires
        st.wf(),
        fits(s, st),
        in_grid(c),
        is_digit(x),
        pointing_triple(st, c, x, p, q, r, kind),
    ensures
        s[c] != Some(x as u8),
{
    lemma_unit_has_digit(s, kind, p, x);
    let j = choose|j: int| in_grid(j) && in_unit(kind, p, j) && #[trigger] s[j] == Some(x as u8);
    lemma_unit_sees(kind, p, j);
    lemma_seen_digit_is_in_empty_cell(s, st, p, j, x);
    assert(j == p || j == q || j == r);
    assert(box_of(j) == box_of(c));
    if s[c] == Some(x as u8) {
        lemma_solution_distinct(s, c, j);
    }
}

/// Where a digit is live at `p` and `q` only on the line of `p`, every
/// fitting grid holds it at `p` or at `q`.
pub proof fn lemma_line_pair(s: Seq<Option<u8>>, st: SolverState, kind: int, p: int, q: int, x: int)
    requires
        st.wf(),
        fits(s, st),
        in_grid(p),
        0 <= kind < 2,
        is_digit(x),
        st.live.contains((p, x)),
        line_is_pair(st, kind, p, q, x),
    ensures
        s[p] == Some(x as u8) || s[q] == Some(x as u8),
{
    lemma_unit_has_digit(s, kind, p, x);
    let j = choose|j: int| in_grid(j) && in_unit(kind, p, j) && #[trigger] s[j] == Some(x as u8);
    lemma_unit_sees(kind, p, j);
    lemma_seen_digit_is_in_empty_cell(s, st, p, j, x);
}

/// An X-Wing is right.
pub proof fn lemma_x_wing_sound(
    s: Seq<Option<u8>>,
    st: SolverState,
    c: int,
    x: int,
    p1: int,
    q1: int,
    p2: int,
    q2: int,
    kind: int,
)
    requires
        st.wf(),
        fits(s, st),
        in_grid(c),
        is_digit(x),
        x_wing(st, c, x, p1, q1, p2, q2, kind),
    ensures
        s[c] != Some(x as u8),
{
    lemma_line_pair(s, st, kind, p1, q1, x);
    lemma_line_pair(s, st, kind, p2, q2, x);
    lemma_unit_sees(1 - kind, c, p1);
    lemma_unit_sees(1 - kind, c, p2);
    lemma_unit_sees(1 - kind, q1, q2);
    if s[c] == Some(x as u8) {
        lemma_solution_distinct(s, c, p1);
        lemma_solution_distinct(s, c, p2);
        assert(q1 != q2);
        lemma_solution_distinct(s, q1, q2);
    }
}

/// Where a line has two places of a digit, all of them on three crossing
/// lines, every fitting grid holds the digit on the line in one of its
/// places, on one of the three crossing lines.
pub proof fn lemma_line_in_three(
    s: Seq<Option<u8>>,
    st: SolverState,
    kind: int,
    a: int,
    c: int,
    b2: int,
    b3: int,
    x: int,
) -> (j: int)
    requires
        st.wf(),
        fits(s, st),
        in_grid(a),
        0 <= kind < 2,
        is_digit(x),
        line_has_two(st, kind, a, x),
        line_in_three(st, kind, a, c, b2, b3, x),
    ensures
        in_grid(j),
        in_unit(kind, a, j),
        s[j] == Some(x as u8),
        in_unit(1 - kind, j, c) || in_unit(1 - kind, j, b2) || in_unit(1 - kind, j, b3),
{
    let (p, q) = choose|p: int, q: int|
        #![trigger st.live.contains((p, x)), st.live.contains((q, x))]
        in_grid(p) && in_grid(q) && p < q && in_unit(kind, a, p) && in_unit(kind, a, q)
            && st.live.contains((p, x)) && st.live.contains((q, x));
    lemma_unit_has_digit(s, kind, a, x);
    let j = choose|j: int| in_grid(j) && in_unit(kind, a, j) && #[trigger] s[j] == Some(x as u8);
    assert(in_unit(kind, p, j));
    lemma_unit_sees(kind, p, j);
    lemma_seen_digit_is_in_empty_cell(s, st, p, j, x);
    j
}

/// A Swordfish is right.
pub proof fn lemma_swordfish_sound(
    s: Seq<Option<u8>>,
    st: SolverState,
    c: int,
    x: int,
    a1: int,
    a2: int,
    a3: int,
    b2: int,
    b3: int,
    kind: int,
)
    requires
        st.wf(),
        fits(s, st),
        in_grid(c),
        is_digit(x),
        swordfish(st, c, x, a1, a2, a3, b2, b3, kind),
    ensures
        s[c] != Some(x as u8),
{
    let j1 = lemma_line_in_three(s, st, kind, a1, c, b2, b3, x);
    let j2 = lemma_line_in_three(s, st, kind, a2, c, b2, b3, x);
    let j3 = lemma_line_in_three(s, st, kind, a3, c, b2, b3, x);
    assert(j1 != j2 && j1 != j3 && j2 != j3);
    if in_unit(1 - kind, j1, j2) {
        lemma_unit_sees(1 - kind, j1, j2);
        lemma_solution_distinct(s, j1, j2);
    }
    if in_unit(1 - kind, j1, j3) {
        lemma_unit_sees(1 - kind, j1, j3);
        lemma_solution_distinct(s, j1, j3);
    }
    if in_unit(1 - kind, j2, j3) {
        lemma_unit_sees(1 - kind, j2, j3);
        lemma_solution_distinct(s, j2, j3);
    }
    let j = if in_unit(1 - kind, j1, c) {
        j1
    } else if in_unit(1 - kind, j2, c) {
        j2
    } else {
        j3
    };
    assert(in_unit(1 - kind, j, c));
    lemma_unit_sees(1 - kind, c, j);
    if s[c] == Some(x as u8) {
        lemma_solution_distinct(s, c, j);
    }
}

/// An XY-Wing is right.
pub proof fn lemma_xy_wing_sound(
    s: Seq<Option<u8>>,
    st: SolverState,
    c: int,
    z: int,
    pivot: int,
    w1: int,
    w2: int,
    x: int,
    y: int,
)
    requires
        st.wf(),
        fits(s, st),
        in_grid(c),
        is_digit(z),
        xy_wing(st, c, z, pivot, w1, w2, x, y),
    ensures
        s[c] != Some(z as u8),
{
    lemma_count_means_empty(st, pivot);
    lemma_count_means_empty(st, w1);
    lemma_count_means_empty(st, w2);
    lemma_fitting_digit_is_live(s, st, pivot);
    lemma_fitting_digit_is_live(s, st, w1);
    lemma_fitting_digit_is_live(s, st, w2);
    lemma_two_candidates(st, pivot, x, y, s[pivot]->0 as int);
    lemma_two_candidates(st, w1, x, z, s[w1]->0 as int);
    lemma_two_candidates(st, w2, y, z, s[w2]->0 as int);
    lemma_solution_distinct(s, pivot, w1);
    lemma_solution_distinct(s, pivot, w2);
    if s[c] == Some(z as u8) {
        lemma_solution_distinct(s, c, w1);
        lemma_solution_distinct(s, c, w2);
    }
}

/// What an eliminating technique strikes is right: no fitting grid holds
/// the struck digit in the cell.
pub proof fn lemma_strike_sound(
    t: SolvingTechnique,
    s: Seq<Option<u8>>,
    st: SolverState,
    c: int,
    x: int,
)
    requires
        st.wf(),
        fits(s, st),
        in_grid(c),
        is_digit(x),
        strikes(t, st, c, x),
    ensures
        s[c] != Some(x as u8),
{
    match t {
        SolvingTechnique::NakedPair => {
            let (a, b, kind) = choose|a: int, b: int, kind: int| naked_pair(st, c, x, a, b, kind);
            lemma_naked_pair_sound(s, st, c, x, a, b, kind);
        },
        SolvingTechnique::HiddenPair => {
            let (b, y, z, kind) = choose|b: int, y: int, z: int, kind: int|
                hidden_pair(st, c, x, b, y, z, kind);
            lemma_hidden_pair_sound(s, st, c, x, b, y, z, kind);
        },
        SolvingTechnique::BoxLineReduction => {
            let (p, q, kind) = choose|p: int, q: int, kind: int| box_line(st, c, x, p, q, kind);
            lemma_box_line_sound(s, st, c, x, p, q, kind);
        },
        SolvingTechnique::PointingPairs => {
            let (p, q, kind) = choose|p: int, q: int, kind: int|
                pointing_pair(st, c, x, p, q, kind);
            lemma_pointing_pair_sound(s, st, c, x, p, q, kind);
        },
        SolvingTechnique::XWing => {
            let (p1, q1, p2, q2, kind) = choose|p1: int, q1: int, p2: int, q2: int, kind: int|
                x_wing(st, c, x, p1, q1, p2, q2, kind);
            lemma_x_wing_sound(s, st, c, x, p1, q1, p2, q2, kind);
        },
        SolvingTechnique::PointingTriples => {
            let (p, q, r, kind) = choose|p: int, q: int, r: int, kind: int|
                pointing_triple(st, c, x, p, q, r, kind);
            lemma_pointing_triple_sound(s, st, c, x, p, q, r, kind);
        },
        SolvingTechnique::Swordfish => {
            let (a1, a2, a3, b2, b3, kind) = choose|
                a1: int,
                a2: int,
                a3: int,
                b2: int,
                b3: int,
                kind: int,
            | swordfish(st, c, x, a1, a2, a3, b2, b3, kind);
            lemma_swordfish_sound(s, st, c, x, a1, a2, a3, b2, b3, kind);
        },
        SolvingTechnique::XYWing => {
            let (pivot, w1, w2, x1, y1) = choose|pivot: int, w1: int, w2: int, x1: int, y1: int|
                xy_wing(st, c, x, pivot, w1, w2, x1, y1);
            lemma_xy_wing_sound(s, st, c, x, pivot, w1, w2, x1, y1);
        },
        _ => {},
    }
}

/// A sweep leaves a well-formed state well formed.
pub proof fn lemma_swept_wf(t: SolvingTechnique, st: SolverState)
    requires
        st.wf(),
    ensures
        swept(t, st).wf(),
        applied(t, st).wf(),
{
    let next = swept(t, st);
    if is_placing(t) {
        assert forall|c: int| 0 <= c < 81 && (#[trigger] next.board[c]) is Some implies 1
            <= next.board[c]->0 <= 9 by {
            if placement(t, st, c) is Some {
                lemma_placement_places(t, st, c, 1);
            } else {
                assert(next.board[c] == st.board[c]);
            }
        }
        assert forall|c: int, x: int| #[trigger] next.live.contains((c, x)) implies in_grid(c)
            && is_digit(x) && next.board[c] is None by {
            assert(st.live.contains((c, x)));
        }
        assert forall|c: int, x: int, j: int|
            #![trigger next.live.contains((c, x)), sees(c, j)]
            next.live.contains((c, x)) && in_grid(j) && sees(c, j) implies next.board[j] != Some(
            x as u8,
        ) by {
            assert(st.live.contains((c, x)));
            if placement(t, st, j) is Some {
                assert(next.board[j] == placement(t, st, j));
            } else {
                assert(next.board[j] == st.board[j]);
            }
        }
    } else {
        assert forall|c: int, x: int| #[trigger] next.live.contains((c, x)) implies in_grid(c)
            && is_digit(x) && next.board[c] is None by {
            assert(st.live.contains((c, x)));
        }
        assert forall|c: int, x: int, j: int|
            #![trigger next.live.contains((c, x)), sees(c, j)]
            next.live.contains((c, x)) && in_grid(j) && sees(c, j) implies next.board[j] != Some(
            x as u8,
        ) by {
            assert(st.live.contains((c, x)));
        }
    }
    let recorded = next.with_used(t);
    assert forall|c: int, x: int| #[trigger] recorded.live.contains((c, x)) implies in_grid(c)
        && is_digit(x) && recorded.board[c] is None by {
        assert(next.live.contains((c, x)));
    }
    if !st.used.contains(t) {
        assert forall|a: int, b: int|
            0 <= a < recorded.used.len() && 0 <= b < recorded.used.len() && a
                != b implies recorded.used[a] != recorded.used[b] by {
            if a < st.used.len() && b < st.used.len() {
            } else if a < st.used.len() {
                assert(st.used.contains(st.used[a]));
            } else {
                assert(st.used.contains(st.used[b]));
            }
        }
    }
}

/// A sweep keeps every fitting grid: what it places the grid has, and what
/// it strikes the grid does not have.
pub proof fn lemma_swept_fits(t: SolvingTechnique, s: Seq<Option<u8>>, st: SolverState)
    requires
        st.wf(),
        fits(s, st),
    ensures
        fits(s, swept(t, st)),
        fits(s, applied(t, st)),
{
    let next = swept(t, st);
    if is_placing(t) {
        assert forall|c: int| 0 <= c < next.board.len() && (#[trigger] next.board[c]) is Some implies s[c]
            == next.board[c] by {
            if placement(t, st, c) is Some {
                lemma_placement_sound(t, s, st, c);
            } else {
                assert(st.board[c] is Some);
            }
        }
        assert forall|c: int| in_grid(c) && next.board[c] is None implies next.live.contains(
            (c, (#[trigger] s[c])->0 as int),
        ) by {
            assert(st.board[c] is None);
            lemma_fitting_digit_is_live(s, st, c);
            let x = s[c]->0 as int;
            if exists|j: int|
                0 <= j < 81 && sees(c, j) && #[trigger] placement(t, st, j) == Some(x as u8) {
                let j = choose|j: int|
                    0 <= j < 81 && sees(c, j) && #[trigger] placement(t, st, j) == Some(x as u8);
                lemma_placement_sound(t, s, st, j);
                lemma_solution_distinct(s, c, j);
            }
        }
    } else {
        assert forall|c: int| in_grid(c) && next.board[c] is None implies next.live.contains(
            (c, (#[trigger] s[c])->0 as int),
        ) by {
            lemma_fitting_digit_is_live(s, st, c);
            let x = s[c]->0 as int;
            if strikes(t, st, c, x) {
                lemma_strike_sound(t, s, st, c, x);
            }
        }
    }
    let recorded = next.with_used(t);
    assert forall|c: int| in_grid(c) && recorded.board[c] is None implies recorded.live.contains(
        (c, (#[trigger] s[c])->0 as int),
    ) by {
        assert(next.live.contains((c, s[c]->0 as int)));
    }
}

/// A round keeps the state well formed and keeps every fitting grid.
pub proof fn lemma_round_sound(s: Seq<Option<u8>>, st: SolverState, lo: int, hi: int)
    requires
        st.wf(),
    ensures
        round(st, lo, hi).wf(),
        fits(s, st) ==> fits(s, round(st, lo, hi)),
{
    if first_rung(st, lo, hi) is Some {
        let t = first_rung(st, lo, hi)->0;
        lemma_swept_wf(t, st);
        if fits(s, st) {
            lemma_swept_fits(t, s, st);
        }
    }
}

/// However long the ladder runs, the state stays well formed and every
/// fitting grid still fits.
pub proof fn lemma_run_sound(s: Seq<Option<u8>>, st: SolverState, fuel: nat)
    requires
        st.wf(),
    ensures
        run(st, fuel).wf(),
        fits(s, st) ==> fits(s, run(st, fuel)),
    decreases fuel,
{
    if fuel > 0 && first_rung(st, 0, 10) is Some {
        lemma_round_sound(s, st, 0, 10);
        lemma_run_sound(s, round(st, 0, 10), (fuel - 1) as nat);
    }
}

/// The state from which a solver starts is well formed, and every
/// completion of the board fits it.
pub proof fn lemma_initial_sound(s: Seq<Option<u8>>, board: Seq<Option<u8>>)
    requires
        board.len() == 81,
        digits_in_range(board),
    ensures
        SolverState::initial(board).wf(),
        solves(s, board) ==> fits(s, SolverState::initial(board)),
{
    let st = SolverState::initial(board);
    assert(st.used.no_duplicates());
    if solves(s, board) {
        assert forall|c: int| in_grid(c) && st.board[c] is None implies st.live.contains(
            (c, (#[trigger] s[c])->0 as int),
        ) by {
            assert(s[c] is Some);
            let d = s[c]->0;
            assert forall|j: int| in_grid(j) && #[trigger] sees(c, j) implies board[j] != Some(
                d,
            ) by {
                if board[j] == Some(d) {
                    assert(s[j] == board[j]);
                    lemma_solution_distinct(s, c, j);
                }
            }
            assert(placement_free(board, c, d));
        }
    }
}

/// The ladder is sound: in the state in which it comes to rest, every
/// filled cell holds the digit that every completion of the puzzle has
/// there, and no candidate that a completion uses has been struck.
pub proof fn lemma_ladder_keeps_completions(board: Seq<Option<u8>>, s: Seq<Option<u8>>)
    requires
        board.len() == 81,
        digits_in_range(board),
        solves(s, board),
    ensures
        at_rest(SolverState::initial(board)).wf(),
        fits(s, at_rest(SolverState::initial(board))),
        extends(s, at_rest(SolverState::initial(board)).board),
{
    let st = SolverState::initial(board);
    lemma_initial_sound(s, board);
    lemma_run_sound(s, st, st.total() as nat);
}

/// Where the ladder fills the whole board of a puzzle that has a
/// completion, the board it ends with is that completion, and the puzzle
/// has no other.
pub proof fn lemma_finished_ladder_finds_the_only_completion(
    board: Seq<Option<u8>>,
    s: Seq<Option<u8>>,
    t: Seq<Option<u8>>,
)
    requires
        board.len() == 81,
        digits_in_range(board),
        complete(at_rest(SolverState::initial(board)).board),
        solves(s, board),
        solves(t, board),
    ensures
        s == at_rest(SolverState::initial(board)).board,
        s == t,
{
    let end = at_rest(SolverState::initial(board)).board;
    lemma_ladder_keeps_completions(board, s);
    lemma_ladder_keeps_completions(board, t);
    assert(s =~= end);
    assert(t =~= end);
}

/// The ladder only fills cells and strikes candidates: the state in which
/// it comes to rest keeps every clue of the board, and no technique makes
/// progress on it any more.
pub proof fn lemma_ladder_refines(board: Seq<Option<u8>>)
    requires
        board.len() == 81,
        digits_in_range(board),
    ensures
        at_rest(SolverState::initial(board)).refines(SolverState::initial(board)),
        first_rung(at_rest(SolverState::initial(board)), 0, 10) is None,
{
    let st = SolverState::initial(board);
    lemma_initial_sound(board, board);
    lemma_run_refines(st, st.total() as nat);
    lemma_run_comes_to_rest(st, st.total() as nat);
}

/// What a technique makes of a state refines the state.
pub proof fn lemma_applied_refines(t: SolvingTechnique, st: SolverState)
    requires
        st.wf(),
    ensures
        applied(t, st).refines(st),
{
    let next = applied(t, st);
    if makes_progress(t, st) && is_placing(t) {
        assert forall|i: int| 0 <= i < st.board.len() && (#[trigger] st.board[i]) is Some implies next.board[i]
            == st.board[i] by {
            if placement(t, st, i) is Some {
                lemma_placement_places(t, st, i, 1);
                assert(st.live.contains((i, placement(t, st, i)->0 as int)));
            }
        }
    }
}

/// However long the ladder runs, the state it reaches refines the state
/// it started from.
pub proof fn lemma_run_refines(st: SolverState, fuel: nat)
    requires
        st.wf(),
    ensures
        run(st, fuel).refines(st),
    decreases fuel,
{
    if fuel > 0 && first_rung(st, 0, 10) is Some {
        let t = first_rung(st, 0, 10)->0;
        let next = round(st, 0, 10);
        lemma_applied_refines(t, st);
        lemma_swept_wf(t, st);
        lemma_run_refines(next, (fuel - 1) as nat);
        let end = run(next, (fuel - 1) as nat);
        assert forall|i: int| 0 <= i < st.board.len() && (#[trigger] st.board[i]) is Some implies end.board[i]
            == st.board[i] by {
            assert(next.board[i] == st.board[i]);
        }
    }
}

} // verus!
