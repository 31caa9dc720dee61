//! The engine as a host sees it: boards as plain digits with 0 for an
//! empty cell, levels as numbers, and answers as plain values that a host
//! can marshal as it likes.

use rand::rngs::SmallRng;
use vstd::prelude::*;
use crate::classic::{
    clues_of, create_advanced_puzzle, create_advanced_puzzle_with_seed, create_puzzle_with_seed,
    create_simple_puzzle, create_simple_puzzle_with_seed, fallback_target, generate_solved_board,
    generate_solved_board_with_seed, is_advanced_puzzle, is_plain_puzzle, level_of_grade,
    removal_target,
};
use crate::difficulty::{analysis_of, analyze_difficulty};
use crate::generator::{accepted, GeneratorConfig, PuzzleGenerator};
use crate::rules::{
    complete, conflict_free, digits_in_range, is_first_solution, is_solution, solvable,
};
use crate::solver::patterns::{at_rest, round};
use crate::solver::{HumanStyleSolver, SolverState};
use crate::types::{
    BranchingFactor, DifficultyAnalysis, DifficultyLevel, SolvingTechnique, BOARD_SIZE,
};
use crate::validator::{all_digits_in_range, has_unique_solution, is_board_valid, solve_board};

verus! {

/// The cells that plain digits stand for: 0 is an empty cell.
pub open spec fn cells_from(digits: Seq<u8>) -> Seq<Option<u8>> {
    Seq::new(
        digits.len(),
        |i: int|
            if digits[i] == 0 {
                None
            } else {
                Some(digits[i])
            },
    )
}

/// The plain digits of a board, 0 for an empty cell.
pub open spec fn digits_from(cells: Seq<Option<u8>>) -> Seq<u8> {
    Seq::new(
        cells.len(),
        |i: int|
            match cells[i] {
                Some(d) => d,
                None => 0u8,
            },
    )
}

/// The plain digits of a board, with `fill` for an empty cell.
pub open spec fn digits_or(cells: Seq<Option<u8>>, fill: u8) -> Seq<u8> {
    Seq::new(
        cells.len(),
        |i: int|
            match cells[i] {
                Some(d) => d,
                None => fill,
            },
    )
}

/// The board as plain digits, 0 for an empty cell.
pub fn to_js_board(board: &[Option<u8>]) -> (digits: Vec<u8>)
    ensures
        digits@ == digits_from(board@),
{
    let mut digits: Vec<u8> = Vec::new();
    let mut i: usize = 0;
    while i < board.len()
        invariant
            i <= board@.len(),
            digits@.len() == i,
            forall|j: int| 0 <= j < i ==> digits@[j] == digits_from(board@)[j],
        decreases board@.len() - i,
    {
        let digit: u8 = match board[i] {
            Some(d) => d,
            None => 0,
        };
        digits.push(digit);
        i += 1;
    }
    proof {
        assert(digits@ =~= digits_from(board@));
    }
    digits
}

/// The board that plain digits stand for, 0 read as an empty cell.
pub fn from_js_board(js_board: &[u8]) -> (board: Vec<Option<u8>>)
    ensures
        board@ == cells_from(js_board@),
{
    let mut board: Vec<Option<u8>> = Vec::new();
    let mut i: usize = 0;
    while i < js_board.len()
        invariant
            i <= js_board@.len(),
            board@.len() == i,
            forall|j: int| 0 <= j < i ==> board@[j] == cells_from(js_board@)[j],
        decreases js_board@.len() - i,
    {
        let digit: u8 = js_board[i];
        board.push(
            if digit == 0 {
                None
            } else {
                Some(digit)
            },
        );
        i += 1;
    }
    proof {
        assert(board@ =~= cells_from(js_board@));
    }
    board
}

/// A board without empty cells and zeros goes to digits and back unchanged.
pub proof fn lemma_digits_round_trip(cells: Seq<Option<u8>>)
    requires
        forall|i: int| 0 <= i < cells.len() ==> (#[trigger] cells[i]) != Some(0u8),
    ensures
        cells_from(digits_from(cells)) == cells,
{
    assert(cells_from(digits_from(cells)) =~= cells);
}

/// The cell that a number from the host stands for: a digit 1 to 9 is a
/// clue, anything else an empty cell.
pub fn cell_from_number(num: u8) -> (cell: Option<u8>)
    ensures
        cell == if 1 <= num <= 9 {
            Some(num)
        } else {
            None
        },
{
    if num >= 1 && num <= 9 {
        Some(num)
    } else {
        None
    }
}

/// The level that a code 0 to 3 stands for; Medium for any other code.
pub open spec fn level_of_code(code: u8) -> DifficultyLevel {
    if code == 0 {
        DifficultyLevel::Easy
    } else if code == 2 {
        DifficultyLevel::Hard
    } else if code == 3 {
        DifficultyLevel::Expert
    } else {
        DifficultyLevel::Medium
    }
}

/// The level that a code 0 to 3 stands for; Medium for any other code.
pub fn level_from_code(code: u8) -> (level: DifficultyLevel)
    ensures
        level == level_of_code(code),
{
    match code {
        0 => DifficultyLevel::Easy,
        1 => DifficultyLevel::Medium,
        2 => DifficultyLevel::Hard,
        3 => DifficultyLevel::Expert,
        _ => DifficultyLevel::Medium,
    }
}

/// The digits are 81 zeros.
pub open spec fn is_blank(digits: Seq<u8>) -> bool {
    digits.len() == 81 && forall|i: int| 0 <= i < 81 ==> digits[i] == 0
}

/// 81 zeros: the answer of a generation run that found no puzzle.
pub fn blank_board() -> (digits: Vec<u8>)
    ensures
        is_blank(digits@),
{
    let mut digits: Vec<u8> = Vec::new();
    let mut i: usize = 0;
    while i < BOARD_SIZE
        invariant
            i <= 81,
            digits@.len() == i,
            forall|j: int| 0 <= j < i ==> digits@[j] == 0,
        decreases 81 - i,
    {
        digits.push(0);
        i += 1;
    }
    digits
}

/// The digits of a generated puzzle, or 81 zeros where generation found none.
fn puzzle_or_blank(generator: &PuzzleGenerator, rng: &mut SmallRng) -> (digits: Vec<u8>)
    ensures
        digits@.len() == 81,
        is_blank(digits@) || accepted(generator.config(), cells_from(digits@)),
{
    match generator.generate(rng) {
        Some(puzzle) => {
            let digits = to_js_board(puzzle.as_slice());
            proof {
                assert forall|i: int| 0 <= i < puzzle@.len() implies (#[trigger] puzzle@[i])
                    != Some(0u8) by {}
                lemma_digits_round_trip(puzzle@);
            }
            digits
        },
        None => blank_board(),
    }
}

/// Generates a puzzle for the level with the given code and returns it as
/// plain digits; 81 zeros where generation found none.
pub fn generate_puzzle(difficulty: u8, rng: &mut SmallRng) -> (digits: Vec<u8>)
    ensures
        digits@.len() == 81,
        is_blank(digits@) || accepted(
            GeneratorConfig::preset(level_of_code(difficulty)),
            cells_from(digits@),
        ),
{
    let generator = PuzzleGenerator::with_difficulty(level_from_code(difficulty));
    puzzle_or_blank(&generator, rng)
}

/// The configuration of a custom run: at least 17 and at most 50 clues,
/// 1000 attempts, and a branching factor between 1.0 and 4.0 within 0.5 of 2.5.
pub open spec fn custom_config(
    difficulty: u8,
    min_clues: usize,
    max_clues: usize,
    prefer_symmetry: bool,
) -> GeneratorConfig {
    GeneratorConfig {
        target_difficulty: level_of_code(difficulty),
        max_attempts: 1000,
        min_clues: if min_clues >= 17 {
            min_clues
        } else {
            17
        },
        max_clues: if max_clues <= 50 {
            max_clues
        } else {
            50
        },
        prefer_symmetry,
        min_branching_factor: 1000,
        max_branching_factor: 4000,
        target_branching_factor: 2500,
        branching_factor_tolerance: 500,
    }
}

/// Generates a puzzle with clue bounds of the caller's choice and returns
/// it as plain digits; 81 zeros where generation found none.
pub fn generate_custom_puzzle(
    difficulty: u8,
    min_clues: usize,
    max_clues: usize,
    prefer_symmetry: bool,
    rng: &mut SmallRng,
) -> (digits: Vec<u8>)
    ensures
        digits@.len() == 81,
        is_blank(digits@) || accepted(
            custom_config(difficulty, min_clues, max_clues, prefer_symmetry),
            cells_from(digits@),
        ),
{
    let config = GeneratorConfig {
        target_difficulty: level_from_code(difficulty),
        max_attempts: 1000,
        min_clues: if min_clues >= 17 {
            min_clues
        } else {
            17
        },
        max_clues: if max_clues <= 50 {
            max_clues
        } else {
            50
        },
        prefer_symmetry,
        min_branching_factor: 1000,
        max_branching_factor: 4000,
        target_branching_factor: 2500,
        branching_factor_tolerance: 500,
    };
    let generator = PuzzleGenerator::new(config);
    puzzle_or_blank(&generator, rng)
}

/// Whether the digits are a board of 81 cells without conflicts.
pub fn validate_board(board: Vec<u8>) -> (valid: bool)
    ensures
        valid == (board@.len() == 81 && conflict_free(cells_from(board@))),
{
    if board.len() != BOARD_SIZE {
        return false;
    }
    let cells = from_js_board(board.as_slice());
    is_board_valid(cells.as_slice())
}

/// Whether the digits are a board of 81 cells with a completion.
pub fn check_unique_solution(board: Vec<u8>) -> (unique: bool)
    ensures
        unique == (board@.len() == 81 && solvable(cells_from(board@))),
{
    if board.len() != BOARD_SIZE {
        return false;
    }
    let cells = from_js_board(board.as_slice());
    has_unique_solution(cells.as_slice())
}

/// Solves a board of plain digits. The digits come back unchanged where
/// they are not 81 or the board has no completion.
pub fn solve_puzzle(board: Vec<u8>) -> (digits: Vec<u8>)
    ensures
        digits@.len() == board@.len(),
        board@.len() == 81 && solvable(cells_from(board@)) ==> is_first_solution(
            cells_from(digits@),
            cells_from(board@),
        ),
        !(board@.len() == 81 && solvable(cells_from(board@))) ==> digits@ == board@,
{
    if board.len() != BOARD_SIZE {
        return board;
    }
    let mut cells = from_js_board(board.as_slice());
    if solve_board(cells.as_mut_slice()) {
        let digits = to_js_board(cells.as_slice());
        proof {
            assert forall|i: int| 0 <= i < cells@.len() implies (#[trigger] cells@[i]) != Some(
                0u8,
            ) by {}
            lemma_digits_round_trip(cells@);
        }
        digits
    } else {
        board
    }
}

/// Completes a board where it can and returns it as plain digits, with 1
/// in every cell that stayed empty.
pub fn solve_to_digits(board: &[Option<u8>]) -> (digits: Vec<u8>)
    requires
        board@.len() == 81,
    ensures
        digits@.len() == 81,
        solvable(board@) ==> is_first_solution(cells_from(digits@), board@),
        !solvable(board@) ==> digits@ == digits_or(board@, 1),
{
    let mut cells = vstd::slice::slice_to_vec(board);
    let solved = solve_board(cells.as_mut_slice());
    let mut digits: Vec<u8> = Vec::new();
    let mut i: usize = 0;
    while i < BOARD_SIZE
        invariant
            i <= 81,
            cells@.len() == 81,
            digits@.len() == i,
            forall|j: int| 0 <= j < i ==> digits@[j] == digits_or(cells@, 1)[j],
        decreases 81 - i,
    {
        let digit: u8 = match cells[i] {
            Some(d) => d,
            None => 1,
        };
        digits.push(digit);
        i += 1;
    }
    proof {
        assert(digits@ =~= digits_or(cells@, 1));
        if solved {
            assert(cells_from(digits@) =~= cells@);
        }
    }
    digits
}

/// Analyses a board of plain digits; `None` where the digits are not 81 or
/// not all between 0 and 9.
pub fn analyze_puzzle_difficulty(board: Vec<u8>) -> (analysis: Option<DifficultyAnalysis>)
    ensures
        analysis is Some <==> board@.len() == 81 && digits_in_range(cells_from(board@)),
        analysis is Some ==> analysis->0 == analysis_of(cells_from(board@)),
{
    if board.len() != BOARD_SIZE {
        return None;
    }
    let cells = from_js_board(board.as_slice());
    if !all_digits_in_range(cells.as_slice()) {
        return None;
    }
    Some(analyze_difficulty(cells.as_slice()))
}

/// What the technique ladder made of a board.
#[derive(Debug)]
pub struct TechniqueRun {
    /// Whether the ladder filled the board.
    pub solved: bool,
    /// The techniques that made progress, in the order of their first use.
    pub techniques: Vec<SolvingTechnique>,
    /// The board as the ladder left it, as plain digits.
    pub board: Vec<u8>,
    /// The branching factor of the state in which the ladder came to rest.
    pub branching_factor: BranchingFactor,
}

/// The run is the run of the ladder on the cells.
pub open spec fn is_run_of(run: TechniqueRun, cells: Seq<Option<u8>>) -> bool {
    let rest = at_rest(SolverState::initial(cells));
    &&& run.solved == complete(rest.board)
    &&& run.techniques@ == rest.used
    &&& run.board@ == digits_from(rest.board)
    &&& run.branching_factor == BranchingFactor::ratio(
        rest.total(),
        crate::rules::empty_count(rest.board),
    )
}

/// Runs the technique ladder on a board of plain digits; `None` where the
/// digits are not 81 or not all between 0 and 9.
pub fn solve_with_techniques(board: Vec<u8>) -> (run: Option<TechniqueRun>)
    ensures
        run is Some <==> board@.len() == 81 && digits_in_range(cells_from(board@)),
        run is Some ==> is_run_of(run->0, cells_from(board@)),
{
    if board.len() != BOARD_SIZE {
        return None;
    }
    let cells = from_js_board(board.as_slice());
    if !all_digits_in_range(cells.as_slice()) {
        return None;
    }
    let mut solver = HumanStyleSolver::new(cells.as_slice());
    let solved = solver.solve_with_techniques();
    let used = solver.get_techniques_used();
    let mut techniques: Vec<SolvingTechnique> = Vec::new();
    let mut k: usize = 0;
    while k < used.len()
        invariant
            k <= used@.len(),
            techniques@ == used@.subrange(0, k as int),
        decreases used@.len() - k,
    {
        techniques.push(used[k]);
        proof {
            assert(techniques@ =~= used@.subrange(0, k + 1));
        }
        k += 1;
    }
    proof {
        assert(used@.subrange(0, k as int) =~= used@);
    }
    let digits = to_js_board(solver.get_board());
    let branching_factor = solver.calculate_branching_factor();
    Some(TechniqueRun { solved, techniques, board: digits, branching_factor })
}

/// A hint: the cell to fill and the digit that goes there.
#[derive(Debug, Clone, Copy, PartialEq, Eq, Structural)]
pub struct Hint {
    pub cell: usize,
    pub number: u8,
}

/// The hint names the first cell that the boards differ in, and the digit
/// that `after` holds there.
pub open spec fn is_first_change(
    hint: Option<Hint>,
    before: Seq<Option<u8>>,
    after: Seq<Option<u8>>,
) -> bool {
    match hint {
        Some(h) => {
            &&& h.cell < 81
            &&& after[h.cell as int] == Some(h.number)
            &&& before[h.cell as int] != after[h.cell as int]
            &&& forall|i: int|
                0 <= i < h.cell ==> !(before[i] != after[i] && (#[trigger] after[i]) is Some)
        },
        None => forall|i: int|
            0 <= i < 81 ==> !(before[i] != after[i] && (#[trigger] after[i]) is Some),
    }
}

/// A hint for a board of plain digits: one round of the basic techniques
/// is applied, and the first cell that it fills is the hint. `None` where
/// the round fills nothing, or the digits are not 81 or not all between 0
/// and 9.
#[verifier::loop_isolation(false)]
pub fn get_hint(board: Vec<u8>) -> (hint: Option<Hint>)
    ensures
        board@.len() == 81 && digits_in_range(cells_from(board@)) ==> is_first_change(
            hint,
            cells_from(board@),
            round(SolverState::initial(cells_from(board@)), 0, 2).board,
        ),
        !(board@.len() == 81 && digits_in_range(cells_from(board@))) ==> hint is None,
{
    if board.len() != BOARD_SIZE {
        return None;
    }
    let cells = from_js_board(board.as_slice());
    if !all_digits_in_range(cells.as_slice()) {
        return None;
    }
    let mut solver = HumanStyleSolver::new(cells.as_slice());
    if solver.apply_basic_techniques() {
        let after = solver.get_board();
        let mut i: usize = 0;
        while i < BOARD_SIZE
            invariant
                i <= 81,
                forall|j: int|
                    0 <= j < i ==> !(cells@[j] != after@[j] && (#[trigger] after@[j]) is Some),
            decreases 81 - i,
        {
            match after[i] {
                Some(number) => {
                    if !same_cell(cells[i], after[i]) {
                        return Some(Hint { cell: i, number });
                    }
                },
                None => {},
            }
            i += 1;
        }
    }
    None
}

/// Whether two cells hold the same.
fn same_cell(a: Option<u8>, b: Option<u8>) -> (same: bool)
    ensures
        same == (a == b),
{
    match a {
        Some(x) => match b {
            Some(y) => x == y,
            None => false,
        },
        None => b.is_none(),
    }
}

/// The name of a technique as players know it.
pub open spec fn technique_text(technique: SolvingTechnique) -> Seq<char> {
    match technique {
        SolvingTechnique::NakedSingle => "Naked Single"@,
        SolvingTechnique::HiddenSingle => "Hidden Single"@,
        SolvingTechnique::NakedPair => "Naked Pair"@,
        SolvingTechnique::HiddenPair => "Hidden Pair"@,
        SolvingTechnique::BoxLineReduction => "Box/Line Reduction"@,
        SolvingTechnique::PointingPairs => "Pointing Pair"@,
        SolvingTechnique::XWing => "X-Wing"@,
        SolvingTechnique::PointingTriples => "Pointing Triples"@,
        SolvingTechnique::Swordfish => "Swordfish"@,
        SolvingTechnique::Coloring => "Coloring"@,
        SolvingTechnique::XYWing => "XY-Wing"@,
        SolvingTechnique::XYChain => "XY-Chain"@,
        SolvingTechnique::ForcingChain => "Forcing Chain"@,
        SolvingTechnique::TrialAndError => "Trial and Error"@,
    }
}

/// The name of a level.
pub open spec fn level_text(level: DifficultyLevel) -> Seq<char> {
    match level {
        DifficultyLevel::VeryEasy => "VeryEasy"@,
        DifficultyLevel::Easy => "Easy"@,
        DifficultyLevel::Medium => "Medium"@,
        DifficultyLevel::Hard => "Hard"@,
        DifficultyLevel::Expert => "Expert"@,
    }
}

/// The name of a level.
pub fn level_label(level: DifficultyLevel) -> (label: &'static str)
    ensures
        label@ == level_text(level),
{
    match level {
        DifficultyLevel::VeryEasy => "VeryEasy",
        DifficultyLevel::Easy => "Easy",
        DifficultyLevel::Medium => "Medium",
        DifficultyLevel::Hard => "Hard",
        DifficultyLevel::Expert => "Expert",
    }
}

/// The name of a technique as players know it.
pub fn technique_label(technique: SolvingTechnique) -> (label: &'static str)
    ensures
        label@ == technique_text(technique),
{
    match technique {
        SolvingTechnique::NakedSingle => "Naked Single",
        SolvingTechnique::HiddenSingle => "Hidden Single",
        SolvingTechnique::NakedPair => "Naked Pair",
        SolvingTechnique::HiddenPair => "Hidden Pair",
        SolvingTechnique::BoxLineReduction => "Box/Line Reduction",
        SolvingTechnique::PointingPairs => "Pointing Pair",
        SolvingTechnique::XWing => "X-Wing",
        SolvingTechnique::PointingTriples => "Pointing Triples",
        SolvingTechnique::Swordfish => "Swordfish",
        SolvingTechnique::Coloring => "Coloring",
        SolvingTechnique::XYWing => "XY-Wing",
        SolvingTechnique::XYChain => "XY-Chain",
        SolvingTechnique::ForcingChain => "Forcing Chain",
        SolvingTechnique::TrialAndError => "Trial and Error",
    }
}

/// The puzzle is a game of the grade: made from some finished grid by the
/// advanced creation for the grades from 3 on, by plain removal below.
pub open spec fn is_game(puzzle: Seq<Option<u8>>, difficulty: u8) -> bool {
    if difficulty >= 3 {
        exists|digits: Seq<u8>|
            digits.len() == 81 && is_solution(clues_of(digits)) && #[trigger] is_advanced_puzzle(
                puzzle,
                digits,
                difficulty,
            )
    } else {
        exists|digits: Seq<u8>|
            digits.len() == 81 && is_solution(clues_of(digits)) && #[trigger] is_plain_puzzle(
                puzzle,
                digits,
                removal_target(difficulty),
            )
    }
}

/// A new game for a grade 1 to 5: a fresh finished grid, and a puzzle from
/// it by the advanced creation for the grades from 3 on, by plain removal
/// below.
pub fn create_game(difficulty: u8, rng: &mut SmallRng) -> (puzzle: Vec<Option<u8>>)
    ensures
        puzzle@.len() == 81,
        is_game(puzzle@, difficulty),
{
    let solved = generate_solved_board(rng);
    if difficulty >= 3 {
        create_advanced_puzzle(solved.as_slice(), difficulty, rng)
    } else {
        create_simple_puzzle(solved.as_slice(), difficulty, rng)
    }
}

/// A new game for a grade and a seed: the grid comes from the seed, the
/// removal order from the seed moved on by the grade.
pub fn create_game_with_seed(difficulty: u8, seed: u64) -> (puzzle: Vec<Option<u8>>)
    ensures
        puzzle@.len() == 81,
        is_game(puzzle@, difficulty),
{
    let solved = generate_solved_board_with_seed(seed);
    if difficulty >= 3 {
        create_advanced_puzzle_with_seed(solved.as_slice(), difficulty, seed)
    } else {
        create_simple_puzzle_with_seed(solved.as_slice(), difficulty, seed)
    }
}

/// A new game for a grade and a seed by the generator of the grade's
/// level, with plain removal from the seed's grid where the generator finds
/// nothing.
pub fn create_seeded_game(difficulty: u8, seed: u64) -> (puzzle: Vec<Option<u8>>)
    ensures
        puzzle@.len() == 81,
        accepted(GeneratorConfig::preset(level_of_grade(difficulty)), puzzle@) || exists|
            digits: Seq<u8>,
        |
            digits.len() == 81 && is_solution(clues_of(digits)) && #[trigger] is_plain_puzzle(
                puzzle@,
                digits,
                fallback_target(difficulty),
            ),
{
    let solved = generate_solved_board_with_seed(seed);
    create_puzzle_with_seed(solved.as_slice(), difficulty, seed)
}

} // verus!
