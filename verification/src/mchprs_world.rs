//! What a redstone simulation of a schematic needs to know before it
//! starts: which chunk a block falls into, and every way to set the
//! inputs of a circuit.

use crate::packing::bit;
use vstd::arithmetic::power2::{lemma2_to64, lemma2_to64_rest, lemma_pow2_strictly_increases, pow2};
use vstd::prelude::*;

verus! {

/// Why a simulation world could not be made.
#[derive(Debug)]
pub enum MchprsWorldError {
    /// The chunks of the world could not be laid out.
    InitializationFailed(String),
}

impl MchprsWorldError {
    /// A description of the error.
    pub fn message(&self) -> (r: String)
        ensures
            match self {
                MchprsWorldError::InitializationFailed(reason) => r@ == "Initialization failed: "@
                    + reason@,
            },
    {
        match self {
            MchprsWorldError::InitializationFailed(reason) => {
                let mut text = "Initialization failed: ".to_string();
                text.append(reason.as_str());
                text
            },
        }
    }
}

/// The coordinate of the chunk that the block coordinate `v` falls into:
/// `v` divided by 16, rounded down.
pub fn chunk_coordinate(v: i32) -> (r: i32)
    ensures
        r == v as int / 16,
{
    if v >= 0 {
        v / 16
    } else {
        let below: i64 = (-(v as i64) - 1) / 16;
        (-below - 1) as i32
    }
}

/// The key of the chunk that the block column `(x, z)` falls into.
pub fn get_chunk_key(x: i32, z: i32) -> (r: (i32, i32))
    ensures
        r.0 == x as int / 16,
        r.1 == z as int / 16,
{
    (chunk_coordinate(x), chunk_coordinate(z))
}

proof fn lemma_mask_bit(i: u64, j: u64)
    by (bit_vector)
    requires
        j < 64,
    ensures
        (i & (1u64 << j) != 0) == bit(i, j),
{
}

/// Every way to set `num_inputs` inputs: entry `i` sets input `j` as bit
/// `j` of `i` says, so that the entries count up from all inputs off to
/// all inputs on.
pub fn generate_input_combinations(num_inputs: usize) -> (r: Vec<Vec<bool>>)
    requires
        num_inputs < usize::BITS,
    ensures
        r.len() == pow2(num_inputs as nat),
        forall|i: int|
            0 <= i < r.len() ==> (#[trigger] r[i]).len() == num_inputs && forall|j: int|
                0 <= j < num_inputs ==> #[trigger] r[i][j] == bit(i as u64, j as u64),
{
    let mut count: usize = 1;
    let mut k: usize = 0;
    proof {
        lemma2_to64();
        lemma2_to64_rest();
    }
    while k < num_inputs
        invariant
            k <= num_inputs,
            num_inputs < usize::BITS,
            count == pow2(k as nat),
            pow2(32) == 0x1_0000_0000,
            pow2(64) == 0x1_0000_0000_0000_0000,
        decreases num_inputs - k,
    {
        proof {
            vstd::arithmetic::power2::lemma_pow2_unfold((k + 1) as nat);
            if usize::BITS == 32 {
                if k + 1 < 32 {
                    lemma_pow2_strictly_increases((k + 1) as nat, 32);
                }
            } else {
                if k + 1 < 64 {
                    lemma_pow2_strictly_increases((k + 1) as nat, 64);
                }
            }
        }
        count = count * 2;
        k += 1;
    }
    let mut combinations: Vec<Vec<bool>> = Vec::new();
    let mut i: usize = 0;
    while i < count
        invariant
            i <= count,
            num_inputs < usize::BITS,
            combinations.len() == i,
            forall|a: int|
                0 <= a < i ==> (#[trigger] combinations[a]).len() == num_inputs && forall|j: int|
                    0 <= j < num_inputs ==> #[trigger] combinations[a][j] == bit(a as u64, j as u64),
        decreases count - i,
    {
        let mut combination: Vec<bool> = Vec::new();
        let mut j: usize = 0;
        while j < num_inputs
            invariant
                j <= num_inputs,
                num_inputs < usize::BITS,
                combination.len() == j,
                forall|b: int| 0 <= b < j ==> #[trigger] combination[b] == bit(i as u64, b as u64),
            decreases num_inputs - j,
        {
            proof {
                lemma_mask_bit(i as u64, j as u64);
            }
            combination.push((i as u64) & (1u64 << (j as u64)) != 0);
            j += 1;
        }
        combinations.push(combination);
        i += 1;
    }
    combinations
}

} // verus!
