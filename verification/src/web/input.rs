//! The input of the benchmark.

use vstd::arithmetic::div_mod::*;
use vstd::prelude::*;

use crate::field::baby_bear::BabyBearParameters;
use crate::field::monty;
use crate::field::monty::{MontyField, MontyParameters};
use crate::zmod;

verus! {

/// Scratch buffer size for the executor. 512 MiB lets a sub-batch reach 128
/// transforms of `2^20` elements.
pub const SCRATCH_BYTES: usize = 536_870_912;

/// The multiplier that spreads the benchmark's input over the field.
pub const INPUT_MULTIPLIER: u32 = 0x9E37_79B1;

/// The canonical value of element `i` of the benchmark's input.
pub open spec fn input_value(i: int) -> int {
    ((i * INPUT_MULTIPLIER) % 0x1_0000_0000) % (BabyBearParameters::PRIME as int)
}

/// Pseudo-random input of `total` elements in Montgomery form.
pub fn benchmark_input(total: u32) -> (r: Vec<u32>)
    ensures
        r@.len() == total,
        forall|i: int|
            0 <= i < total ==> #[trigger] r@[i] < BabyBearParameters::PRIME && monty::from_mont::<
                BabyBearParameters,
            >(r@[i] as int) == input_value(i),
{
    let mut r: Vec<u32> = Vec::with_capacity(total as usize);
    let mut i: u32 = 0;
    while i < total
        invariant
            i <= total,
            r@.len() == i,
            forall|k: int|
                0 <= k < i ==> #[trigger] r@[k] < BabyBearParameters::PRIME
                    && monty::from_mont::<BabyBearParameters>(r@[k] as int) == input_value(k),
        decreases total - i,
    {
        proof {
            BabyBearParameters::consistent();
        }
        let spread: u32 = i.wrapping_mul(INPUT_MULTIPLIER) % BabyBearParameters::PRIME;
        let x = MontyField::<BabyBearParameters>::from_canonical(spread);
        proof {
            lemma_small_mod(
                spread as nat,
                BabyBearParameters::PRIME as nat,
            );
        }
        r.push(x.raw());
        i = i + 1;
    }
    r
}

/// The benchmark's input, in words: the Montgomery form of the low 32 bits
/// of the index times `0x9E3779B1`, modulo BabyBear's prime.
pub proof fn law_input_words(r: Seq<u32>, i: int)
    requires
        0 <= i < r.len(),
        r[i] < BabyBearParameters::PRIME,
        monty::from_mont::<BabyBearParameters>(r[i] as int) == input_value(i),
    ensures
        r[i] == (((i * 2654435761) % 0x1_0000_0000) * 0x1_0000_0000) % 2013265921,
{
    crate::field::baby_bear::law_constants();
    let x = (i * 2654435761) % 0x1_0000_0000;
    monty::law_montgomery_form::<BabyBearParameters>(r[i] as int, x);
    monty::lemma_round_trip::<BabyBearParameters>(r[i] as int);
    zmod::lemma_times_absorbs(2013265921, x, 0x1_0000_0000);
    zmod::lemma_reduced(2013265921, r[i] as int);
}

/// The executor's scratch memory has 512 MiB.
pub proof fn law_scratch_memory()
    ensures
        SCRATCH_BYTES == 512 * 1024 * 1024,
{
}

} // verus!
