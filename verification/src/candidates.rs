//! Candidate tracking: for each cell, the set of digits still possible there.

use vstd::prelude::*;
use crate::rules::{in_grid, is_digit};
use crate::types::BOARD_SIZE;

verus! {

/// For each of the 81 cells, a nine-bit set of the digits still possible there.
#[derive(Clone, Copy, Debug)]
pub struct CandidateGrid {
    /// Bit `d - 1` of entry `i` is set when digit `d` is a candidate of cell `i`.
    candidates: [u16; BOARD_SIZE],
}

proof fn lemma_bit_cleared(m: u16, a: u16, b: u16)
    by (bit_vector)
    requires
        a < 9,
        b < 9,
    ensures
        ((m & !(1u16 << a)) & (1u16 << b) != 0) == ((m & (1u16 << b) != 0) && a != b),
{
}

proof fn lemma_bit_alone(a: u16, b: u16)
    by (bit_vector)
    requires
        a < 9,
        b < 9,
    ensures
        ((1u16 << a) & (1u16 << b) != 0) == (a == b),
{
}

proof fn lemma_bit_of_full(b: u16)
    by (bit_vector)
    requires
        b < 9,
    ensures
        0x1ffu16 & (1u16 << b) != 0,
{
}

impl CandidateGrid {
    /// Digit `num` is a candidate of cell `index`.
    pub closed spec fn has(&self, index: int, num: int) -> bool {
        self.candidates@[index] & (1u16 << ((num - 1) as u16)) != 0
    }

    /// Number of candidates of cell `index` among the digits 1 to `upto`.
    pub open spec fn count_upto(&self, index: int, upto: int) -> int
        decreases upto,
    {
        if upto <= 0 {
            0
        } else {
            self.count_upto(index, upto - 1) + if self.has(index, upto) {
                1int
            } else {
                0int
            }
        }
    }

    /// Number of candidates of cell `index`.
    pub open spec fn count(&self, index: int) -> int {
        self.count_upto(index, 9)
    }

    /// A grid in which every digit is a candidate of every cell.
    pub fn new() -> (grid: CandidateGrid)
        ensures
            forall|i: int, d: int| in_grid(i) && is_digit(d) ==> #[trigger] grid.has(i, d),
    {
        let grid = CandidateGrid { candidates: [0x1ffu16;BOARD_SIZE] };
        proof {
            assert forall|i: int, d: int| in_grid(i) && is_digit(d) implies #[trigger] grid.has(
                i,
                d,
            ) by {
                lemma_bit_of_full((d - 1) as u16);
            }
        }
        grid
    }

    /// Whether digit `num` is a candidate of cell `index`.
    pub fn has_candidate(&self, index: usize, num: u8) -> (present: bool)
        requires
            index < 81,
            1 <= num <= 9,
        ensures
            present == self.has(index as int, num as int),
    {
        let bit: u16 = 1u16 << ((num - 1) as u16);
        self.candidates[index] & bit != 0
    }

    /// Removes digit `num` from the candidates of cell `index`.
    pub fn remove_candidate(&mut self, index: usize, num: u8)
        requires
            index < 81,
            1 <= num <= 9,
        ensures
            forall|i: int, d: int|
                in_grid(i) && is_digit(d) ==> (#[trigger] final(self).has(i, d) <==> old(self).has(
                    i,
                    d,
                ) && !(i == index && d == num)),
    {
        let bit: u16 = 1u16 << ((num - 1) as u16);
        let mask: u16 = self.candidates[index] & !bit;
        self.candidates[index] = mask;
        proof {
            assert forall|i: int, d: int| in_grid(i) && is_digit(d) implies (#[trigger] self.has(
                i,
                d,
            ) <==> old(self).has(i, d) && !(i == index && d == num)) by {
                if i == index {
                    lemma_bit_cleared(
                        old(self).candidates@[index as int],
                        (num - 1) as u16,
                        (d - 1) as u16,
                    );
                }
            }
        }
    }

    /// Leaves digit `num` as the only candidate of cell `index`.
    pub fn set_only_candidate(&mut self, index: usize, num: u8)
        requires
            index < 81,
            1 <= num <= 9,
        ensures
            forall|i: int, d: int|
                in_grid(i) && is_digit(d) ==> (#[trigger] final(self).has(i, d) <==> if i
                    == index {
                    d == num
                } else {
                    old(self).has(i, d)
                }),
    {
        let bit: u16 = 1u16 << ((num - 1) as u16);
        self.candidates[index] = bit;
        proof {
            assert forall|i: int, d: int| in_grid(i) && is_digit(d) implies (#[trigger] self.has(
                i,
                d,
            ) <==> if i == index {
                d == num
            } else {
                old(self).has(i, d)
            }) by {
                if i == index {
                    lemma_bit_alone((num - 1) as u16, (d - 1) as u16);
                }
            }
        }
    }

    /// The candidates of cell `index`, in ascending order.
    pub fn get_candidates(&self, index: usize) -> (digits: Vec<u8>)
        requires
            index < 81,
        ensures
            digits@.len() == self.count(index as int),
            forall|a: int, b: int| 0 <= a < b < digits@.len() ==> digits@[a] < digits@[b],
            forall|a: int| 0 <= a < digits@.len() ==> is_digit(#[trigger] digits@[a] as int),
            forall|d: int|
                is_digit(d) ==> (digits@.contains(d as u8) <==> #[trigger] self.has(index as int, d)),
    {
        let mut digits: Vec<u8> = Vec::new();
        let mut num: u8 = 1;
        while num <= 9
            invariant
                index < 81,
                1 <= num <= 10,
                digits@.len() == self.count_upto(index as int, num - 1),
                forall|a: int, b: int| 0 <= a < b < digits@.len() ==> digits@[a] < digits@[b],
                forall|a: int| 0 <= a < digits@.len() ==> 1 <= (#[trigger] digits@[a]) < num,
                forall|d: int|
                    1 <= d < num ==> (digits@.contains(d as u8) <==> #[trigger] self.has(
                        index as int,
                        d,
                    )),
            decreases 10 - num,
        {
            let ghost before = digits@;
            if self.has_candidate(index, num) {
                digits.push(num);
                assert(digits@[before.len() as int] == num);
            }
            proof {
                assert forall|d: int| 1 <= d < num + 1 implies (digits@.contains(d as u8)
                    <==> #[trigger] self.has(index as int, d)) by {
                    if digits@.contains(d as u8) {
                        let a = choose|a: int| 0 <= a < digits@.len() && digits@[a] == d as u8;
                        if a < before.len() {
                            assert(before[a] == d as u8);
                            assert(before.contains(d as u8));
                        }
                    }
                    if d < num && before.contains(d as u8) {
                        let a = choose|a: int| 0 <= a < before.len() && before[a] == d as u8;
                        assert(digits@[a] == d as u8);
                    }
                }
            }
            num += 1;
        }
        digits
    }

    /// Number of candidates of cell `index`.
    pub fn candidate_count(&self, index: usize) -> (count: usize)
        requires
            index < 81,
        ensures
            count == self.count(index as int),
            count <= 9,
    {
        let mut count: usize = 0;
        let mut num: u8 = 1;
        while num <= 9
            invariant
                index < 81,
                1 <= num <= 10,
                count == self.count_upto(index as int, num - 1),
                count < num,
            decreases 10 - num,
        {
            if self.has_candidate(index, num) {
                count += 1;
            }
            num += 1;
        }
        count
    }
}

impl Default for CandidateGrid {
    fn default() -> (grid: CandidateGrid)
        ensures
            forall|i: int, d: int| in_grid(i) && is_digit(d) ==> #[trigger] grid.has(i, d),
    {
        CandidateGrid::new()
    }
}

} // verus!
