//! Handling of holyQASM simulation results: the simulator reports one
//! probability amplitude per basis state, and the most probable outcome is the
//! last state whose amplitude is greatest in the IEEE-754 total order.

use vstd::prelude::*;

verus! {

/// The place of a double in the IEEE-754 total order (the order of
/// `f64::total_cmp`), computed from its bit pattern: non-negative patterns
/// keep their value, negative ones (sign bit set) are reversed below them.
pub open spec fn total_order_key(bits: u64) -> int {
    if bits < 0x8000_0000_0000_0000u64 {
        bits as int
    } else {
        0x7fff_ffff_ffff_ffffint - bits as int
    }
}

/// `best` is the index of the last amplitude that is greatest in the total
/// order, or 0 when there is none.
pub open spec fn is_last_max(amplitudes: Seq<u64>, best: int) -> bool {
    if amplitudes.len() == 0 {
        best == 0
    } else {
        &&& 0 <= best < amplitudes.len()
        &&& forall|j: int|
            0 <= j < amplitudes.len() ==> total_order_key(#[trigger] amplitudes[j]) <= total_order_key(
                amplitudes[best],
            )
        &&& forall|j: int|
            best < j < amplitudes.len() ==> total_order_key(#[trigger] amplitudes[j]) < total_order_key(
                amplitudes[best],
            )
    }
}

/// The result of executing a quantum circuit simulation.
pub struct SimulationResult {
    /// Probability amplitude for each basis state (IEEE-754 bit patterns).
    pub amplitudes: Vec<u64>,
    /// Index of the most probable measurement outcome.
    pub max_state: usize,
}

/// The total-order key of a double given by its bit pattern.
pub fn total_key(bits: u64) -> (k: i128)
    ensures
        k == total_order_key(bits),
{
    if bits < 0x8000_0000_0000_0000u64 {
        bits as i128
    } else {
        0x7fff_ffff_ffff_ffffi128 - bits as i128
    }
}

/// The index of the most probable outcome: the last amplitude that is greatest
/// in the total order, or 0 when there are no amplitudes.
pub fn most_probable_state(amplitudes: &[u64]) -> (best: usize)
    ensures
        is_last_max(amplitudes@, best as int),
{
    let n = amplitudes.len();
    if n == 0 {
        return 0;
    }
    let mut best: usize = 0;
    let mut best_key = total_key(amplitudes[0]);
    let mut i: usize = 1;
    while i < n
        invariant
            n == amplitudes@.len(),
            1 <= i <= n,
            best < i,
            best_key == total_order_key(amplitudes@[best as int]),
            forall|j: int| 0 <= j < i ==> total_order_key(#[trigger] amplitudes@[j]) <= best_key,
            forall|j: int| best < j < i ==> total_order_key(#[trigger] amplitudes@[j]) < best_key,
        decreases n - i,
    {
        let k = total_key(amplitudes[i]);
        if k >= best_key {
            best = i;
            best_key = k;
        }
        i = i + 1;
    }
    best
}

impl SimulationResult {
    /// The simulation result for the reported amplitudes, with the most
    /// probable outcome picked out.
    pub fn from_amplitudes(amplitudes: Vec<u64>) -> (r: SimulationResult)
        ensures
            r.amplitudes@ == amplitudes@,
            is_last_max(amplitudes@, r.max_state as int),
    {
        let max_state = most_probable_state(amplitudes.as_slice());
        SimulationResult { amplitudes, max_state }
    }
}

/// The total order separates every two bit patterns: distinct patterns have
/// distinct keys, so "the greatest amplitude" is one value.
pub proof fn lemma_total_order_key_injective(a: u64, b: u64)
    requires
        total_order_key(a) == total_order_key(b),
    ensures
        a == b,
{
}

/// The total order on doubles, read on bit patterns: every double with the
/// sign bit set comes before every double without it; without the sign bit,
/// a larger pattern is a larger double; with it, a larger pattern is a
/// smaller double.
pub proof fn lemma_total_order_on_bits(a: u64, b: u64)
    ensures
        a < 0x8000_0000_0000_0000u64 && b < 0x8000_0000_0000_0000u64 ==> (total_order_key(a) < total_order_key(b)
            <==> a < b),
        a >= 0x8000_0000_0000_0000u64 && b >= 0x8000_0000_0000_0000u64 ==> (total_order_key(a)
            < total_order_key(b) <==> a > b),
        a >= 0x8000_0000_0000_0000u64 && b < 0x8000_0000_0000_0000u64 ==> total_order_key(a) < total_order_key(b),
{
}

} // verus!
