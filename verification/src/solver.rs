//! The solver that works like a person: it keeps the candidates of every
//! empty cell and applies a ladder of deduction techniques, weakest first,
//! recording which ones made progress.

pub mod patterns;
pub mod singles;
pub mod pairs;
pub mod lines;
pub mod wings;
pub mod ladder;
pub mod soundness;

use vstd::prelude::*;
use crate::candidates::CandidateGrid;
use crate::grid::{cells_see, coords_to_index, index_to_coords};
use crate::rules::{
    complete, digits_in_range, empty_count, empty_upto, in_grid, is_digit, lemma_empty_upto_zero,
    placement_free, sees,
};
use crate::types::{BranchingFactor, SolvingTechnique, BOARD_SIZE};

verus! {

/// What a solver knows at one moment: the board, the candidates that are
/// still live, and the techniques that have made progress so far.
///
/// A pair `(cell, digit)` is live when the cell is empty and the digit has
/// not been ruled out for it. Filled cells have no live pairs.
pub struct SolverState {
    pub board: Seq<Option<u8>>,
    pub live: Set<(int, int)>,
    pub used: Seq<SolvingTechnique>,
}

impl SolverState {
    /// The candidates of cell `c` among the digits 1 to `upto`.
    pub open spec fn count_upto(self, c: int, upto: int) -> int
        decreases upto,
    {
        if upto <= 0 {
            0
        } else {
            self.count_upto(c, upto - 1) + if self.live.contains((c, upto)) {
                1int
            } else {
                0int
            }
        }
    }

    /// Number of candidates of cell `c`.
    pub open spec fn count(self, c: int) -> int {
        self.count_upto(c, 9)
    }

    /// Number of live pairs in the cells before `n`.
    pub open spec fn total_upto(self, n: int) -> int
        decreases n,
    {
        if n <= 0 {
            0
        } else {
            self.total_upto(n - 1) + self.count(n - 1)
        }
    }

    /// Number of live pairs on the whole board.
    pub open spec fn total(self) -> int {
        self.total_upto(81)
    }

    /// The state is consistent with itself: live pairs belong to empty
    /// cells, no live digit stands in a cell that the pair's cell sees, and
    /// no technique is recorded twice.
    pub open spec fn wf(self) -> bool {
        &&& self.board.len() == 81
        &&& digits_in_range(self.board)
        &&& forall|c: int, x: int| #[trigger]
            self.live.contains((c, x)) ==> in_grid(c) && is_digit(x) && self.board[c] is None
        &&& forall|c: int, x: int, j: int|
            #![trigger self.live.contains((c, x)), sees(c, j)]
            self.live.contains((c, x)) && in_grid(j) && sees(c, j) ==> self.board[j] != Some(
                x as u8,
            )
        &&& self.used.no_duplicates()
    }

    /// The live pairs right after the clues of `board` have been propagated:
    /// every digit that no cell in sight holds, in every empty cell.
    pub open spec fn initial_live(board: Seq<Option<u8>>) -> Set<(int, int)> {
        Set::new(
            |p: (int, int)|
                in_grid(p.0) && is_digit(p.1) && board[p.0] is None && placement_free(
                    board,
                    p.0,
                    p.1 as u8,
                ),
        )
    }

    /// The state a solver starts from on `board`.
    pub open spec fn initial(board: Seq<Option<u8>>) -> SolverState {
        SolverState { board, live: Self::initial_live(board), used: Seq::empty() }
    }

    /// The state after digit `d` has gone into cell `c`: the cell's own
    /// pairs are gone, and so is `d` in every cell that `c` sees.
    pub open spec fn with_placed(self, c: int, d: int) -> SolverState {
        SolverState {
            board: self.board.update(c, Some(d as u8)),
            live: Set::new(
                |p: (int, int)| self.live.contains(p) && p.0 != c && !(sees(p.0, c) && p.1 == d),
            ),
            used: self.used,
        }
    }

    /// The record of techniques after `t` made progress.
    pub open spec fn with_used(self, t: SolvingTechnique) -> SolverState {
        SolverState {
            board: self.board,
            live: self.live,
            used: if self.used.contains(t) {
                self.used
            } else {
                self.used.push(t)
            },
        }
    }

    /// `self` follows from `earlier` by filling cells and striking candidates.
    pub open spec fn refines(self, earlier: SolverState) -> bool {
        &&& self.board.len() == earlier.board.len()
        &&& forall|i: int|
            0 <= i < earlier.board.len() && (#[trigger] earlier.board[i]) is Some ==> self.board[i]
                == earlier.board[i]
        &&& self.live.subset_of(earlier.live)
    }
}

/// The strongest technique in `used`, `NakedSingle` if there is none.
pub open spec fn hardest_of(used: Seq<SolvingTechnique>) -> SolvingTechnique
    decreases used.len(),
{
    if used.len() == 0 {
        SolvingTechnique::NakedSingle
    } else {
        let rest = hardest_of(used.drop_last());
        if used.last().ordinal() >= rest.ordinal() {
            used.last()
        } else {
            rest
        }
    }
}

/// `hardest_of` is at least as strong as every recorded technique, and it is
/// one of them unless none is recorded.
pub proof fn lemma_hardest_of(used: Seq<SolvingTechnique>)
    ensures
        forall|k: int| 0 <= k < used.len() ==> (#[trigger] used[k]).ordinal() <= hardest_of(
            used,
        ).ordinal(),
        used.len() > 0 ==> used.contains(hardest_of(used)),
        used.len() == 0 ==> hardest_of(used) == SolvingTechnique::NakedSingle,
    decreases used.len(),
{
    if used.len() > 0 {
        let front = used.drop_last();
        lemma_hardest_of(front);
        assert forall|k: int| 0 <= k < used.len() implies (#[trigger] used[k]).ordinal()
            <= hardest_of(used).ordinal() by {
            if k < front.len() {
                assert(front[k] == used[k]);
            }
        }
        if hardest_of(used) == used.last() {
            assert(used[used.len() - 1] == used.last());
        } else {
            let k = choose|k: int| 0 <= k < front.len() && front[k] == hardest_of(front);
            assert(used[k] == front[k]);
        }
    }
}

/// Striking candidates never raises a cell's count.
pub proof fn lemma_count_monotone(later: SolverState, earlier: SolverState, c: int, upto: int)
    requires
        later.live.subset_of(earlier.live),
    ensures
        later.count_upto(c, upto) <= earlier.count_upto(c, upto),
        forall|x: int|
            1 <= x <= upto && earlier.live.contains((c, x)) && !later.live.contains((c, x))
                ==> later.count_upto(c, upto) < earlier.count_upto(c, upto),
    decreases upto,
{
    if upto > 0 {
        lemma_count_monotone(later, earlier, c, upto - 1);
        if later.live.contains((c, upto)) {
            assert(earlier.live.contains((c, upto)));
        }
    }
}

/// Striking candidates never raises the number of live pairs, and striking
/// one lowers it.
pub proof fn lemma_total_monotone(later: SolverState, earlier: SolverState, n: int)
    requires
        later.live.subset_of(earlier.live),
    ensures
        later.total_upto(n) <= earlier.total_upto(n),
        forall|c: int, x: int|
            0 <= c < n && is_digit(x) && earlier.live.contains((c, x)) && !later.live.contains(
                (c, x),
            ) ==> later.total_upto(n) < earlier.total_upto(n),
    decreases n,
{
    if n > 0 {
        lemma_total_monotone(later, earlier, n - 1);
        lemma_count_monotone(later, earlier, n - 1, 9);
    }
}

/// A cell's count lies between 0 and the number of digits considered.
pub proof fn lemma_count_bounds(st: SolverState, c: int, upto: int)
    requires
        0 <= upto,
    ensures
        0 <= st.count_upto(c, upto) <= upto,
    decreases upto,
{
    if upto > 0 {
        lemma_count_bounds(st, c, upto - 1);
    }
}

/// The number of live pairs lies between 0 and nine per cell.
pub proof fn lemma_total_bounds(st: SolverState, n: int)
    requires
        0 <= n,
    ensures
        0 <= st.total_upto(n) <= 9 * n,
    decreases n,
{
    if n > 0 {
        lemma_total_bounds(st, n - 1);
        lemma_count_bounds(st, n - 1, 9);
    }
}

/// A solver that mimics human reasoning on one board.
pub struct HumanStyleSolver {
    board: Vec<Option<u8>>,
    candidates: CandidateGrid,
    techniques_used: Vec<SolvingTechnique>,
}

impl View for HumanStyleSolver {
    type V = SolverState;

    closed spec fn view(&self) -> SolverState {
        SolverState {
            board: self.board@,
            live: Set::new(
                |p: (int, int)|
                    in_grid(p.0) && is_digit(p.1) && self.board@[p.0] is None
                        && self.candidates.has(p.0, p.1),
            ),
            used: self.techniques_used@,
        }
    }
}

impl HumanStyleSolver {
    /// The solver's state is well formed.
    pub open spec fn wf(&self) -> bool {
        self@.wf()
    }

    /// A solver for `board`, with the clues propagated: a digit is a
    /// candidate of an empty cell unless a cell in its row, column or box
    /// holds it.
    pub fn new(board: &[Option<u8>]) -> (solver: HumanStyleSolver)
        requires
            board@.len() == 81,
            digits_in_range(board@),
        ensures
            solver@ == SolverState::initial(board@),
            solver.wf(),
    {
        let mut cells: Vec<Option<u8>> = Vec::new();
        let mut k: usize = 0;
        while k < BOARD_SIZE
            invariant
                k <= 81,
                cells@.len() == k,
                forall|i: int| 0 <= i < k ==> (#[trigger] cells@[i]) is None,
            decreases 81 - k,
        {
            cells.push(None);
            k += 1;
        }
        let mut solver = HumanStyleSolver {
            board: cells,
            candidates: CandidateGrid::new(),
            techniques_used: Vec::new(),
        };
        proof {
            assert(solver@.live =~= SolverState::initial_live(solver@.board));
        }
        solver.initialize_candidates(board);
        proof {
            assert(solver@.board =~= board@);
        }
        solver
    }

    /// Places every clue of `board` on the (so far empty) cells and
    /// propagates it.
    fn initialize_candidates(&mut self, board: &[Option<u8>])
        requires
            board@.len() == 81,
            digits_in_range(board@),
            old(self)@.board.len() == 81,
            forall|i: int| 0 <= i < 81 ==> (#[trigger] old(self)@.board[i]) is None,
            old(self)@.live == SolverState::initial_live(old(self)@.board),
            old(self)@.used == Seq::<SolvingTechnique>::empty(),
        ensures
            final(self)@.board =~= board@,
            final(self)@.live == SolverState::initial_live(board@),
            final(self)@.used == Seq::<SolvingTechnique>::empty(),
            final(self).wf(),
    {
        proof {
            Self::lemma_initial_wf(self@);
        }
        let mut index: usize = 0;
        while index < BOARD_SIZE
            invariant
                index <= 81,
                board@.len() == 81,
                digits_in_range(board@),
                self.wf(),
                forall|i: int| 0 <= i < index ==> self@.board[i] == board@[i],
                forall|i: int| index <= i < 81 ==> (#[trigger] self@.board[i]) is None,
                self@.live == SolverState::initial_live(self@.board),
                self@.used == Seq::<SolvingTechnique>::empty(),
            decreases 81 - index,
        {
            match board[index] {
                Some(num) => {
                    let ghost before = self@;
                    self.place_number(index, num);
                    proof {
                        let after = self@;
                        assert(after.live =~= SolverState::initial_live(after.board)) by {
                            assert forall|p: (int, int)|
                                after.live.contains(p) == SolverState::initial_live(
                                    after.board,
                                ).contains(p) by {
                                Self::lemma_initial_live_step(before, index as int, num, p);
                            }
                        }
                    }
                },
                None => {},
            }
            index += 1;
        }
        proof {
            assert(self@.board =~= board@);
        }
    }

    proof fn lemma_initial_wf(st: SolverState)
        requires
            st.board.len() == 81,
            forall|i: int| 0 <= i < 81 ==> (#[trigger] st.board[i]) is None,
            st.live == SolverState::initial_live(st.board),
            st.used == Seq::<SolvingTechnique>::empty(),
        ensures
            st.wf(),
    {
    }

    proof fn lemma_initial_live_step(before: SolverState, index: int, num: u8, p: (int, int))
        requires
            before.board.len() == 81,
            in_grid(index),
            before.board[index] is None,
            1 <= num <= 9,
            before.live == SolverState::initial_live(before.board),
        ensures
            before.with_placed(index, num as int).live.contains(p) == SolverState::initial_live(
                before.with_placed(index, num as int).board,
            ).contains(p),
    {
        let after = before.with_placed(index, num as int);
        let c = p.0;
        let x = p.1;
        if in_grid(c) && is_digit(x) {
            if after.live.contains(p) {
                assert(placement_free(before.board, c, x as u8));
                assert forall|j: int| in_grid(j) && #[trigger] sees(c, j) implies after.board[j]
                    != Some(x as u8) by {
                    if j == index {
                        assert(sees(c, index));
                    }
                }
            }
            if SolverState::initial_live(after.board).contains(p) {
                assert(c != index);
                assert forall|j: int| in_grid(j) && #[trigger] sees(c, j) implies before.board[j]
                    != Some(x as u8) by {
                    if j != index {
                        assert(after.board[j] == before.board[j]);
                    }
                }
                if sees(c, index) {
                    assert(after.board[index] != Some(x as u8));
                }
            }
        }
    }

    /// The content of cell `index`.
    pub fn cell(&self, index: usize) -> (content: Option<u8>)
        requires
            self.wf(),
            index < 81,
        ensures
            content == self@.board[index as int],
    {
        self.board[index]
    }

    /// Whether digit `num` is a live candidate of cell `index`.
    pub fn is_live(&self, index: usize, num: u8) -> (live: bool)
        requires
            self.wf(),
            index < 81,
            1 <= num <= 9,
        ensures
            live == self@.live.contains((index as int, num as int)),
    {
        self.board[index].is_none() && self.candidates.has_candidate(index, num)
    }

    /// Number of live candidates of cell `index` (0 for a filled cell).
    pub fn live_count(&self, index: usize) -> (count: usize)
        requires
            self.wf(),
            index < 81,
        ensures
            count == self@.count(index as int),
            count <= 9,
    {
        let mut count: usize = 0;
        let mut num: u8 = 1;
        while num <= 9
            invariant
                self.wf(),
                index < 81,
                1 <= num <= 10,
                count == self@.count_upto(index as int, num - 1),
                count < num,
            decreases 10 - num,
        {
            if self.is_live(index, num) {
                count += 1;
            }
            num += 1;
        }
        count
    }

    /// Strikes digit `num` from the candidates of cell `index`.
    pub fn eliminate(&mut self, index: usize, num: u8)
        requires
            old(self).wf(),
            index < 81,
            1 <= num <= 9,
        ensures
            final(self).wf(),
            final(self)@.board == old(self)@.board,
            final(self)@.used == old(self)@.used,
            final(self)@.live == old(self)@.live.remove((index as int, num as int)),
    {
        self.candidates.remove_candidate(index, num);
        proof {
            assert(self@.live =~= old(self)@.live.remove((index as int, num as int)));
        }
    }

    /// Puts digit `num` into the empty cell `index` and strikes it from the
    /// candidates of every cell in the same row, column or box.
    pub fn place_number(&mut self, index: usize, num: u8)
        requires
            old(self).wf(),
            index < 81,
            1 <= num <= 9,
            old(self)@.board[index as int] is None,
        ensures
            final(self).wf(),
            final(self)@ == old(self)@.with_placed(index as int, num as int),
    {
        let (row, col) = index_to_coords(index);
        self.board[index] = Some(num);
        self.eliminate_candidates_in_units(row, col, num);
        self.candidates.set_only_candidate(index, num);
        proof {
            let before = old(self)@;
            let after = before.with_placed(index as int, num as int);
            assert(self@.board =~= after.board);
            assert(self@.live =~= after.live) by {
                assert forall|p: (int, int)| self@.live.contains(p) == after.live.contains(p) by {
                    if in_grid(p.0) && is_digit(p.1) {
                        if p.0 != index {
                            assert(self.board@[p.0] == old(self).board@[p.0]);
                        }
                    }
                }
            }
            assert(self@ == after);
            assert forall|c: int, x: int, j: int|
                #![trigger after.live.contains((c, x)), sees(c, j)]
                after.live.contains((c, x)) && in_grid(j) && sees(c, j) implies after.board[j]
                != Some(x as u8) by {
                assert(before.live.contains((c, x)));
                if j == index {
                    assert(sees(c, index as int));
                }
            }
        }
    }

    /// Strikes `num` from the candidate sets of the row, the column and the
    /// box of the cell at (`row`, `col`).
    fn eliminate_candidates_in_units(&mut self, row: usize, col: usize, num: u8)
        requires
            row < 9,
            col < 9,
            1 <= num <= 9,
        ensures
            final(self).board == old(self).board,
            final(self).techniques_used == old(self).techniques_used,
            forall|i: int, d: int|
                in_grid(i) && is_digit(d) ==> (#[trigger] final(self).candidates.has(i, d)
                    <==> old(self).candidates.has(i, d) && !(d == num && sees(
                    i,
                    row * 9 + col,
                ))),
    {
        let home: usize = coords_to_index(row, col);
        let mut cell: usize = 0;
        while cell < BOARD_SIZE
            invariant
                cell <= 81,
                home < 81,
                home == row * 9 + col,
                1 <= num <= 9,
                self.board == old(self).board,
                self.techniques_used == old(self).techniques_used,
                forall|i: int, d: int|
                    in_grid(i) && is_digit(d) ==> (#[trigger] self.candidates.has(i, d)
                        <==> old(self).candidates.has(i, d) && !(d == num && i < cell && sees(
                        i,
                        home as int,
                    ))),
            decreases 81 - cell,
        {
            if cells_see(cell, home) {
                self.candidates.remove_candidate(cell, num);
            }
            cell += 1;
        }
    }

    /// Records that technique `t` made progress, once.
    pub fn record_technique_used(&mut self, technique: SolvingTechnique)
        requires
            old(self).wf(),
        ensures
            final(self).wf(),
            final(self)@ == old(self)@.with_used(technique),
    {
        let mut k: usize = 0;
        let mut found = false;
        while k < self.techniques_used.len()
            invariant
                k <= self.techniques_used@.len(),
                self.techniques_used == old(self).techniques_used,
                self.board == old(self).board,
                self.candidates == old(self).candidates,
                found == exists|m: int| 0 <= m < k && self.techniques_used@[m] == technique,
            decreases self.techniques_used@.len() - k,
        {
            if self.techniques_used[k] == technique {
                found = true;
            }
            k += 1;
        }
        if !found {
            self.techniques_used.push(technique);
        }
        proof {
            let before = old(self)@;
            assert(found == before.used.contains(technique));
            assert(self@.live =~= before.live);
            assert(self@.used =~= before.with_used(technique).used);
            if !found {
                assert forall|a: int, b: int|
                    0 <= a < self@.used.len() && 0 <= b < self@.used.len() && a
                        != b implies self@.used[a] != self@.used[b] by {
                    if a < before.used.len() && b < before.used.len() {
                    } else if a < before.used.len() {
                        assert(before.used[a] != technique);
                    } else {
                        assert(before.used[b] != technique);
                    }
                }
            }
        }
    }

    /// Whether every cell is filled.
    pub fn is_solved(&self) -> (solved: bool)
        requires
            self.wf(),
        ensures
            solved == complete(self@.board),
    {
        let mut i: usize = 0;
        while i < BOARD_SIZE
            invariant
                i <= 81,
                self.wf(),
                forall|j: int| 0 <= j < i ==> (#[trigger] self@.board[j]) is Some,
            decreases 81 - i,
        {
            if self.board[i].is_none() {
                return false;
            }
            i += 1;
        }
        true
    }

    /// The mean number of candidates per empty cell, 1/1 for a full board.
    pub fn calculate_branching_factor(&self) -> (factor: BranchingFactor)
        requires
            self.wf(),
        ensures
            factor == BranchingFactor::ratio(self@.total(), empty_count(self@.board)),
            0 < factor.denominator <= 81,
            factor.numerator <= 729,
            complete(self@.board) ==> factor == (BranchingFactor { numerator: 1, denominator: 1 }),
    {
        let mut total: usize = 0;
        let mut empty: usize = 0;
        let mut i: usize = 0;
        while i < BOARD_SIZE
            invariant
                i <= 81,
                self.wf(),
                total == self@.total_upto(i as int),
                empty == empty_upto(self@.board, i as int),
                total <= 9 * i,
                empty <= i,
            decreases 81 - i,
        {
            if self.board[i].is_none() {
                empty += 1;
                total += self.live_count(i);
            } else {
                proof {
                    Self::lemma_filled_count_zero(self@, i as int, 9);
                }
            }
            i += 1;
        }
        proof {
            lemma_empty_upto_zero(self@.board, 81);
        }
        BranchingFactor::new(total, empty)
    }

    proof fn lemma_filled_count_zero(st: SolverState, c: int, upto: int)
        requires
            st.wf(),
            in_grid(c),
            st.board[c] is Some,
        ensures
            st.count_upto(c, upto) == 0,
        decreases upto,
    {
        if upto > 0 {
            Self::lemma_filled_count_zero(st, c, upto - 1);
        }
    }

    /// The strongest technique that made progress, `NakedSingle` if none did.
    pub fn get_hardest_technique_used(&self) -> (hardest: SolvingTechnique)
        ensures
            hardest == hardest_of(self@.used),
            forall|k: int|
                0 <= k < self@.used.len() ==> (#[trigger] self@.used[k]).ordinal()
                    <= hardest.ordinal(),
            self@.used.len() > 0 ==> self@.used.contains(hardest),
            self@.used.len() == 0 ==> hardest == SolvingTechnique::NakedSingle,
    {
        let mut hardest = SolvingTechnique::NakedSingle;
        let mut k: usize = 0;
        while k < self.techniques_used.len()
            invariant
                k <= self.techniques_used@.len(),
                hardest == hardest_of(self.techniques_used@.subrange(0, k as int)),
            decreases self.techniques_used@.len() - k,
        {
            let t = self.techniques_used[k];
            proof {
                let upto = self.techniques_used@.subrange(0, k + 1);
                assert(upto.drop_last() =~= self.techniques_used@.subrange(0, k as int));
                assert(upto.last() == t);
            }
            if t.rank() >= hardest.rank() {
                hardest = t;
            }
            k += 1;
        }
        proof {
            assert(self.techniques_used@.subrange(0, k as int) =~= self.techniques_used@);
            lemma_hardest_of(self@.used);
        }
        hardest
    }

    /// The techniques that made progress, in the order in which they first did.
    pub fn get_techniques_used(&self) -> (used: &[SolvingTechnique])
        ensures
            used@ == self@.used,
    {
        self.techniques_used.as_slice()
    }

    /// The board as it stands.
    pub fn get_board(&self) -> (board: &[Option<u8>])
        ensures
            board@ == self@.board,
    {
        self.board.as_slice()
    }
}

} // verus!
