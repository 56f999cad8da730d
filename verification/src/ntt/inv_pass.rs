//! Unified inverse-NTT pass kernel.
//!
//! Mirrors [`fwd_pass`](super::fwd_pass) with decimation-in-frequency
//! butterflies of descending stride and inverse twiddles. The `N^{-1}`
//! scaling is applied at load time on the first pass (`stage_offset == 0`).
//!
//! Loads are transposed and stores contiguous, the dual of the forward
//! kernel: the next pass's transposed load gathers its lanes from this
//! layout. A workgroup's twiddles depend on the entries' bits below the
//! pass, which stand at the top of the chunk number: `chunk >>
//! stage_offset`.

use vstd::arithmetic::mul::*;
use vstd::arithmetic::power2::*;
use vstd::prelude::*;

use crate::field::monty;
use crate::field::monty::{monty_mul, MontyParameters};
use crate::po2;
use crate::poly;
use crate::zmod;

use super::fwd_pass;
use super::layout;
use super::tile;
use super::tile::{dif_tile_stage, TwiddleTable};
use super::transform;
use super::twiddles;

verus! {

/// Run all butterfly stages of a workgroup's `z` slabs.
pub(crate) fn inv_stages<P: MontyParameters>(
    shared: &mut Vec<u32>,
    tw: &TwiddleTable<'_>,
    log_n: u32,
    log_pass: u32,
    stage_offset: u32,
    log_wg: u32,
    z: usize,
    super_block: usize,
    Ghost(w): Ghost<int>,
)
    requires
        log_n < 32,
        stage_offset + log_pass <= log_n,
        log_wg < log_pass,
        super_block * z + z <= po2::p2((log_n - log_pass) as nat),
        old(shared)@.len() == z * po2::p2(log_pass as nat),
        tile::tile_reduced::<P>(old(shared)@, 0, old(shared)@.len() as int),
        tw.serves::<P>(w, log_n as nat),
    ensures
        final(shared)@.len() == old(shared)@.len(),
        tile::tile_reduced::<P>(final(shared)@, 0, final(shared)@.len() as int),
        forall|zi: int|
            0 <= zi < z ==> #[trigger] tile::tile_values::<P>(
                final(shared)@,
                zi * po2::p2(log_pass as nat),
                log_pass as nat,
            ) == tile::tile_dif(
                P::PRIME as int,
                w,
                log_n as nat,
                log_pass as nat,
                (log_n - stage_offset - log_pass) as nat,
                (super_block * z + zi) / po2::p2(stage_offset as nat),
                tile::tile_values::<P>(
                    old(shared)@,
                    zi * po2::p2(log_pass as nat),
                    log_pass as nat,
                ),
                log_pass as nat,
            ),
{
    let ghost m = P::PRIME as int;
    let ghost l = log_n as nat;
    let ghost lp = log_pass as nat;
    let ghost so = stage_offset as nat;
    let ghost np = po2::p2(lp);
    let ghost rem = (l - so - lp) as nat;
    let ghost orig = shared@;
    let log_remaining: u32 = log_n - stage_offset - log_pass;
    let n_pass = po2::pow2_usize(log_pass);
    let total = shared.len();
    proof {
        po2::lemma_p2(lp);
        po2::lemma_p2_adds(rem, so);
        assert(rem + so == (l - lp) as nat);
        po2::lemma_p2_mono((l - lp) as nat, 31);
        lemma2_to64();
    }
    let mut s: u32 = 0;
    while s < log_pass
        invariant
            s <= log_pass,
            m == P::PRIME,
            l == log_n,
            lp == log_pass,
            so == stage_offset,
            log_n < 32,
            log_wg < log_pass,
            stage_offset + log_pass <= log_n,
            rem == (l - so - lp) as nat,
            log_remaining == rem,
            po2::p2((l - lp) as nat) == po2::p2(rem) * po2::p2(so),
            po2::p2((l - lp) as nat) <= 0x8000_0000,
            np == po2::p2(lp),
            n_pass == np,
            np > 0,
            super_block * z + z <= po2::p2((l - lp) as nat),
            total == z * np,
            orig.len() == total,
            shared@.len() == total,
            tile::tile_reduced::<P>(shared@, 0, total as int),
            tw.serves::<P>(w, l),
            forall|zi: int|
                0 <= zi < z ==> #[trigger] tile::tile_values::<P>(shared@, zi * np, lp)
                    == tile::tile_dif(
                    m,
                    w,
                    l,
                    lp,
                    rem,
                    (super_block * z + zi) / po2::p2(so),
                    tile::tile_values::<P>(orig, zi * np, lp),
                    s as nat,
                ),
        decreases log_pass - s,
    {
        let ghost before = shared@;
        let mut zi: usize = 0;
        while zi < z
            invariant
                zi <= z,
                s < log_pass,
                m == P::PRIME,
                l == log_n,
                lp == log_pass,
                so == stage_offset,
                log_n < 32,
                log_wg < log_pass,
                stage_offset + log_pass <= log_n,
                rem == (l - so - lp) as nat,
                log_remaining == rem,
                po2::p2((l - lp) as nat) == po2::p2(rem) * po2::p2(so),
                po2::p2((l - lp) as nat) <= 0x8000_0000,
                np == po2::p2(lp),
                n_pass == np,
                np > 0,
                super_block * z + z <= po2::p2((l - lp) as nat),
                total == z * np,
                shared@.len() == total,
                before.len() == total,
                tile::tile_reduced::<P>(shared@, 0, total as int),
                tw.serves::<P>(w, l),
                forall|c: int|
                    0 <= c < zi ==> #[trigger] tile::tile_values::<P>(shared@, c * np, lp)
                        == Seq::new(
                        pow2(lp),
                        |i: int|
                            tile::tile_dif_at(
                                m,
                                w,
                                l,
                                lp,
                                rem,
                                (super_block * z + c) / po2::p2(so),
                                tile::tile_values::<P>(before, c * np, lp),
                                s as nat,
                                i,
                            ),
                    ),
                forall|k: int| zi * np <= k < total ==> #[trigger] shared@[k] == before[k],
            decreases z - zi,
        {
            proof {
                po2::lemma_within(zi as int, z as int, np, 0);
                lemma_mul_is_commutative(super_block as int, z as int);
                assert(0 <= super_block * z) by (nonlinear_arith);
                po2::lemma_p2(so);
                po2::lemma_quotient_below(super_block * z + zi, po2::p2(rem), po2::p2(so));
            }
            let base: usize = zi * n_pass;
            let wg_pos: u32 = (super_block * z + zi) as u32;
            let effective_wg = po2::shr_u32(wg_pos, stage_offset);
            let ghost cur = shared@;
            dif_tile_stage::<P>(
                shared,
                base,
                tw,
                log_n,
                log_pass,
                log_remaining,
                effective_wg,
                s,
                log_wg,
                Ghost(w),
            );
            proof {
                assert((zi + 1) * np == zi * np + np) by (nonlinear_arith);
                let tv = tile::tile_values::<P>(before, zi * np, lp);
                assert(tile::tile_values::<P>(cur, zi * np, lp) =~= tv);
                assert forall|c: int| 0 <= c < zi + 1 implies #[trigger] tile::tile_values::<P>(
                    shared@,
                    c * np,
                    lp,
                ) == Seq::new(
                    pow2(lp),
                    |i: int|
                        tile::tile_dif_at(
                            m,
                            w,
                            l,
                            lp,
                            rem,
                            (super_block * z + c) / po2::p2(so),
                            tile::tile_values::<P>(before, c * np, lp),
                            s as nat,
                            i,
                        ),
                ) by {
                    if c < zi {
                        po2::lemma_within(c, zi as int, np, 0);
                        assert(tile::tile_values::<P>(shared@, c * np, lp)
                            =~= tile::tile_values::<P>(cur, c * np, lp));
                    }
                }
                assert forall|i: int| 0 <= i < total implies #[trigger] shared@[i]
                    < P::PRIME by {
                    assert(cur[i] < P::PRIME);
                }
            }
            zi = zi + 1;
        }
        proof {
            assert forall|c: int| 0 <= c < z implies #[trigger] tile::tile_values::<P>(
                shared@,
                c * np,
                lp,
            ) == tile::tile_dif(
                m,
                w,
                l,
                lp,
                rem,
                (super_block * z + c) / po2::p2(so),
                tile::tile_values::<P>(orig, c * np, lp),
                (s + 1) as nat,
            ) by {
                assert(tile::tile_values::<P>(before, c * np, lp) == tile::tile_dif(
                    m,
                    w,
                    l,
                    lp,
                    rem,
                    (super_block * z + c) / po2::p2(so),
                    tile::tile_values::<P>(orig, c * np, lp),
                    s as nat,
                ));
                assert(((s + 1) as nat - 1) as nat == s as nat);
            }
        }
        s = s + 1;
    }
}

/// What the load step makes of one input value: on the first pass it is
/// multiplied by `ni`.
pub open spec fn scaled(m: int, first: bool, ni: int, row: Seq<int>) -> Seq<int> {
    if first {
        poly::scale(m, ni, row)
    } else {
        row
    }
}

/// In which order a workgroup loads a cell of shared memory: `z` adjacent
/// chunks side by side.
spec fn load_order(slot: int, n_pass: int, z: int) -> int {
    (slot % n_pass) * z + slot / n_pass
}

/// `flat` is the place of exactly one cell of shared memory.
proof fn lemma_load_order(slot: int, n_pass: int, z: int, flat: int)
    requires
        z > 0,
        n_pass > 0,
        0 <= flat < n_pass * z,
        0 <= slot < z * n_pass,
    ensures
        ({
            let i = flat / z;
            let zi = flat % z;
            &&& 0 <= i < n_pass
            &&& 0 <= zi < z
            &&& 0 <= zi * n_pass + i < z * n_pass
            &&& (zi * n_pass + i) / n_pass == zi
            &&& (zi * n_pass + i) % n_pass == i
            &&& load_order(zi * n_pass + i, n_pass, z) == flat
            &&& load_order(slot, n_pass, z) == flat ==> slot == zi * n_pass + i
            &&& 0 <= load_order(slot, n_pass, z) < n_pass * z
        }),
{
    let i = flat / z;
    let zi = flat % z;
    po2::lemma_join(flat, z);
    po2::lemma_quotient_below(flat, n_pass, z);
    po2::lemma_within(zi, z, n_pass, i);
    po2::lemma_split(zi, n_pass, i);
    po2::lemma_quotient_below(slot, z, n_pass);
    po2::lemma_join(slot, n_pass);
    po2::lemma_split(slot % n_pass, z, slot / n_pass);
    po2::lemma_within(slot % n_pass, n_pass, z, slot / n_pass);
}

/// One workgroup of the pass: gather `z` lanes, run the stages in shared
/// memory, store contiguously.
fn inv_workgroup<P: MontyParameters>(
    input: &[u32],
    output: &mut [u32],
    tw: &TwiddleTable<'_>,
    n_inv_value: u32,
    log_n: u32,
    log_pass: u32,
    stage_offset: u32,
    log_wg: u32,
    z: usize,
    log_z: u32,
    super_block: usize,
    batch_offset: usize,
    Ghost(w): Ghost<int>,
)
    requires
        log_n < 32,
        stage_offset + log_pass <= log_n,
        log_wg < log_pass,
        z == po2::p2(log_z as nat),
        log_z <= log_n - log_pass,
        super_block < po2::p2((log_n - log_pass - log_z) as nat),
        batch_offset + po2::p2(log_n as nat) <= input@.len(),
        batch_offset + po2::p2(log_n as nat) <= old(output)@.len(),
        tile::tile_reduced::<P>(input@, batch_offset as int, po2::p2(log_n as nat)),
        n_inv_value < P::PRIME,
        tw.serves::<P>(w, log_n as nat),
    ensures
        final(output)@.len() == old(output)@.len(),
        forall|k: int|
            0 <= k < old(output)@.len() ==> {
                let v = #[trigger] final(output)@[k];
                let from = batch_offset + super_block * z * po2::p2(log_pass as nat);
                if from <= k < from + z * po2::p2(log_pass as nat) {
                    &&& v < P::PRIME
                    &&& monty::from_mont::<P>(v as int) == layout::inv_pass_at(
                        P::PRIME as int,
                        w,
                        log_n as nat,
                        log_pass as nat,
                        stage_offset as nat,
                        scaled(
                            P::PRIME as int,
                            stage_offset == 0,
                            monty::from_mont::<P>(n_inv_value as int),
                            tile::tile_values::<P>(input@, batch_offset as int, log_n as nat),
                        ),
                        k - batch_offset,
                    )
                } else {
                    v == old(output)@[k]
                }
            },
{
    let ghost m = P::PRIME as int;
    let ghost l = log_n as nat;
    let ghost lp = log_pass as nat;
    let ghost so = stage_offset as nat;
    let ghost ni = monty::from_mont::<P>(n_inv_value as int);
    let ghost row = tile::tile_values::<P>(input@, batch_offset as int, l);
    let ghost src = scaled(m, so == 0, ni, row);
    let ghost blocks = po2::p2((log_n - log_pass - log_z) as nat);
    let n = po2::pow2_usize(log_n);
    let n_pass = po2::pow2_usize(log_pass);
    let n_other = po2::pow2_usize(log_n - log_pass);
    let wg_size = po2::pow2_usize(log_wg);
    let loads_per_thread = po2::pow2_usize(log_pass - log_wg);
    let is_first_pass: bool = stage_offset == 0;
    let in_len = input.len();
    let out_len = output.len();
    proof {
        po2::lemma_p2_adds(lp, (l - lp) as nat);
        assert(lp + (l - lp) as nat == l);
        po2::lemma_p2_adds((log_n - log_pass - log_z) as nat, log_z as nat);
        assert((log_n - log_pass - log_z) as nat + log_z as nat == (l - lp) as nat);
        po2::lemma_p2_adds((log_pass - log_wg) as nat, log_wg as nat);
        assert((log_pass - log_wg) as nat + log_wg as nat == lp);
        assert(n == n_pass * n_other && n_other == blocks * z && n_pass == loads_per_thread
            * wg_size);
        po2::lemma_within(super_block as int, blocks, z as int, 0);
        po2::lemma_p2_mono(l, 31);
        lemma2_to64();
        assert(z * n_pass <= n_pass * n_other) by (nonlinear_arith)
            requires
                z <= n_other,
                n_pass > 0,
        ;
        assert(z * loads_per_thread <= z * n_pass) by (nonlinear_arith)
            requires
                n_pass == loads_per_thread * wg_size,
                wg_size >= 1,
                z >= 0,
                loads_per_thread >= 0,
        ;
    }
    let ghost first = super_block * z;
    // -- Load (always transposed) -----------------------------------------
    let total_elems: usize = z * n_pass;
    let elems_per_thread: usize = z * loads_per_thread;
    let mut shared: Vec<u32> = vec![0u32; total_elems];
    proof {
        assert(elems_per_thread * wg_size == n_pass * z && total_elems == n_pass * z)
            by (nonlinear_arith)
            requires
                elems_per_thread == z * loads_per_thread,
                n_pass == loads_per_thread * wg_size,
                total_elems == z * n_pass,
        ;
    }
    let mut iter: usize = 0;
    while iter < elems_per_thread
        invariant
            iter <= elems_per_thread,
            elems_per_thread * wg_size == n_pass * z,
            total_elems == n_pass * z,
            total_elems == z * n_pass,
            m == P::PRIME,
            l == log_n,
            n == po2::p2(l),
            n == n_pass * n_other,
            n_other == blocks * z,
            z == po2::p2(log_z as nat),
            log_z < 32,
            z > 0,
            n_pass > 0,
            wg_size > 0,
            n <= 0x8000_0000,
            z * n_pass <= n,
            0 <= super_block < blocks,
            first == super_block * z,
            0 <= first,
            first + z <= n_other,
            batch_offset + n <= in_len == input@.len(),
            tile::tile_reduced::<P>(input@, batch_offset as int, n as int),
            n_inv_value < P::PRIME,
            ni == monty::from_mont::<P>(n_inv_value as int),
            is_first_pass == (so == 0),
            row == tile::tile_values::<P>(input@, batch_offset as int, l),
            src == scaled(m, so == 0, ni, row),
            shared@.len() == total_elems,
            forall|slot: int|
                0 <= slot < total_elems && load_order(slot, n_pass as int, z as int) < iter
                    * wg_size ==> {
                    &&& #[trigger] shared@[slot] < P::PRIME
                    &&& monty::from_mont::<P>(shared@[slot] as int) == src[(slot % n_pass as int)
                        * n_other + (first + slot / n_pass as int)]
                },
        decreases elems_per_thread - iter,
    {
        proof {
            po2::lemma_within(iter as int, elems_per_thread as int, wg_size as int, 0);
            assert((iter + 1) * wg_size == iter * wg_size + wg_size) by (nonlinear_arith);
        }
        let mut tid: usize = 0;
        while tid < wg_size
            invariant
                tid <= wg_size,
                0 <= iter * wg_size,
                iter * wg_size + wg_size <= n_pass * z,
                total_elems == n_pass * z,
                total_elems == z * n_pass,
                m == P::PRIME,
                l == log_n,
                n == po2::p2(l),
                n == n_pass * n_other,
                n_other == blocks * z,
                z == po2::p2(log_z as nat),
                log_z < 32,
                z > 0,
                n_pass > 0,
                n <= 0x8000_0000,
                z * n_pass <= n,
                0 <= super_block < blocks,
                first == super_block * z,
                0 <= first,
                first + z <= n_other,
                batch_offset + n <= in_len == input@.len(),
                tile::tile_reduced::<P>(input@, batch_offset as int, n as int),
                n_inv_value < P::PRIME,
                ni == monty::from_mont::<P>(n_inv_value as int),
                is_first_pass == (so == 0),
                row == tile::tile_values::<P>(input@, batch_offset as int, l),
                src == scaled(m, so == 0, ni, row),
                shared@.len() == total_elems,
                forall|slot: int|
                    0 <= slot < total_elems && load_order(slot, n_pass as int, z as int) < iter
                        * wg_size + tid ==> {
                        &&& #[trigger] shared@[slot] < P::PRIME
                        &&& monty::from_mont::<P>(shared@[slot] as int) == src[(slot
                            % n_pass as int) * n_other + (first + slot / n_pass as int)]
                    },
            decreases wg_size - tid,
        {
            let flat: usize = tid + iter * wg_size;
            let local_idx = po2::shr_usize(flat, log_z);
            let zi = po2::low_usize(flat, log_z);
            proof {
                lemma_load_order(0, n_pass as int, z as int, flat as int);
                po2::lemma_within(
                    local_idx as int,
                    n_pass as int,
                    n_other as int,
                    super_block * z + zi,
                );
            }
            let chunk_id: usize = super_block * z + zi;
            let value = input[batch_offset + local_idx * n_other + chunk_id];
            let loaded: u32 = if is_first_pass {
                monty_mul::<P>(value, n_inv_value)
            } else {
                value
            };
            let ghost before = shared@;
            let at: usize = zi * n_pass + local_idx;
            shared.set(at, loaded);
            proof {
                let x = local_idx * n_other + chunk_id as int;
                assert(row[x] == monty::from_mont::<P>(value as int));
                zmod::lemma_times_comm(m, row[x], ni);
                assert(src[x] == monty::from_mont::<P>(loaded as int));
                assert forall|slot: int|
                    0 <= slot < total_elems && load_order(slot, n_pass as int, z as int) < iter
                        * wg_size + tid + 1 implies {
                    &&& #[trigger] shared@[slot] < P::PRIME
                    &&& monty::from_mont::<P>(shared@[slot] as int) == src[(slot % n_pass as int)
                        * n_other + (first + slot / n_pass as int)]
                } by {
                    lemma_load_order(slot, n_pass as int, z as int, flat as int);
                    if slot != at {
                        assert(shared@[slot] == before[slot]);
                    }
                }
            }
            tid = tid + 1;
        }
        iter = iter + 1;
    }
    let ghost loaded = shared@;
    proof {
        assert forall|slot: int| 0 <= slot < total_elems implies {
            &&& #[trigger] loaded[slot] < P::PRIME
            &&& monty::from_mont::<P>(loaded[slot] as int) == src[(slot % n_pass as int) * n_other
                + (first + slot / n_pass as int)]
        } by {
            lemma_load_order(slot, n_pass as int, z as int, 0);
        }
    }
    // -- Butterfly stages (descending stride) ------------------------------
    inv_stages::<P>(
        &mut shared,
        tw,
        log_n,
        log_pass,
        stage_offset,
        log_wg,
        z,
        super_block,
        Ghost(w),
    );
    // -- Store (always contiguous) ------------------------------------------
    let ghost old_out = output@;
    let ghost base = batch_offset as int;
    let ghost from = base + first * n_pass;
    proof {
        assert(first * n_pass >= 0 && first * n_pass + z * n_pass <= n) by (nonlinear_arith)
            requires
                0 <= first,
                first + z <= n_other,
                n == n_pass * n_other,
                n_pass > 0,
        ;
    }
    let mut zi: usize = 0;
    while zi < z
        invariant
            zi <= z,
            n_pass == loads_per_thread * wg_size,
            n_pass > 0,
            wg_size > 0,
            first == super_block * z,
            0 <= first,
            base == batch_offset,
            from == base + first * n_pass,
            first * n_pass >= 0,
            first * n_pass + z * n_pass <= n,
            z * n_pass <= n,
            first + z <= n_other,
            n <= 0x8000_0000,
            n_other <= 0x8000_0000,
            batch_offset + n <= out_len == old_out.len(),
            output@.len() == old_out.len(),
            shared@.len() == z * n_pass,
            forall|k: int|
                0 <= k < old_out.len() ==> #[trigger] output@[k] == (if from <= k < from + zi
                    * n_pass {
                    shared@[k - from]
                } else {
                    old_out[k]
                }),
        decreases z - zi,
    {
        proof {
            po2::lemma_within(zi as int, z as int, n_pass as int, 0);
            assert((first + zi) * n_pass == first * n_pass + zi * n_pass) by (nonlinear_arith);
            assert((zi + 1) * n_pass == zi * n_pass + n_pass) by (nonlinear_arith);
        }
        let slab_base: usize = batch_offset + (super_block * z + zi) * n_pass;
        let mut k: usize = 0;
        while k < loads_per_thread
            invariant
                k <= loads_per_thread,
                n_pass == loads_per_thread * wg_size,
                wg_size > 0,
                zi < z,
                0 <= zi * n_pass,
                zi * n_pass + n_pass <= z * n_pass <= n,
                slab_base == from + zi * n_pass,
                0 <= from,
                from + z * n_pass <= base + n,
                base == batch_offset,
                n <= 0x8000_0000,
                batch_offset + n <= out_len == old_out.len(),
                output@.len() == old_out.len(),
                shared@.len() == z * n_pass,
                forall|q: int|
                    0 <= q < old_out.len() ==> #[trigger] output@[q] == (if from <= q < from + zi
                        * n_pass + k * wg_size {
                        shared@[q - from]
                    } else {
                        old_out[q]
                    }),
            decreases loads_per_thread - k,
        {
            proof {
                po2::lemma_within(k as int, loads_per_thread as int, wg_size as int, 0);
                assert((k + 1) * wg_size == k * wg_size + wg_size) by (nonlinear_arith);
            }
            let mut tid: usize = 0;
            while tid < wg_size
                invariant
                    tid <= wg_size,
                    0 <= k * wg_size,
                    k * wg_size + wg_size <= n_pass,
                    zi < z,
                    0 <= zi * n_pass,
                    zi * n_pass + n_pass <= z * n_pass <= n,
                    slab_base == from + zi * n_pass,
                    0 <= from,
                    from + z * n_pass <= base + n,
                    base == batch_offset,
                    n <= 0x8000_0000,
                    batch_offset + n <= out_len == old_out.len(),
                    output@.len() == old_out.len(),
                    shared@.len() == z * n_pass,
                    forall|q: int|
                        0 <= q < old_out.len() ==> #[trigger] output@[q] == (if from <= q < from
                            + zi * n_pass + k * wg_size + tid {
                            shared@[q - from]
                        } else {
                            old_out[q]
                        }),
                decreases wg_size - tid,
            {
                let local_idx: usize = tid + k * wg_size;
                output[slab_base + local_idx] = shared[zi * n_pass + local_idx];
                tid = tid + 1;
            }
            k = k + 1;
        }
        zi = zi + 1;
    }
    proof {
        assert(super_block * z * n_pass == first * n_pass);
        assert forall|k: int| 0 <= k < old_out.len() implies {
            let v = #[trigger] output@[k];
            if from <= k < from + z * n_pass {
                &&& v < P::PRIME
                &&& monty::from_mont::<P>(v as int) == layout::inv_pass_at(
                    m,
                    w,
                    l,
                    lp,
                    so,
                    src,
                    k - base,
                )
            } else {
                v == old_out[k]
            }
        } by {
            if from <= k < from + z * n_pass {
                let q = k - from;
                let zi = q / n_pass as int;
                let i = q % n_pass as int;
                po2::lemma_join(q, n_pass as int);
                po2::lemma_quotient_below(q, z as int, n_pass as int);
                let g = first + zi;
                assert(k - base == g * n_pass + i) by (nonlinear_arith)
                    requires
                        q == k - from,
                        from == base + first * n_pass,
                        q == zi * n_pass + i,
                        g == first + zi,
                ;
                po2::lemma_split(g, n_pass as int, i);
                let v = output@[k];
                let done = tile::tile_values::<P>(shared@, zi * n_pass, lp);
                assert(done[i] == monty::from_mont::<P>(v as int));
                // The slab that was gathered is the lane of chunk g.
                let ch = layout::strided(src, pow2(lp), n_other as int, g);
                let slab = tile::tile_values::<P>(loaded, zi * n_pass, lp);
                assert forall|b: int| 0 <= b < n_pass implies slab[b] == ch[b] by {
                    let slot = zi * n_pass + b;
                    po2::lemma_split(zi, n_pass as int, b);
                    po2::lemma_within(zi, z as int, n_pass as int, b);
                    assert(loaded[slot] < P::PRIME);
                }
                assert(slab =~= ch);
            }
        }
    }
}

/// Single inverse-NTT pass: decimation-in-frequency butterflies for
/// `log_pass` stages starting at global inverse stage `stage_offset`, with
/// descending stride, on each of `batch` polynomials.
///
/// - `input`: source buffer.
/// - `output`: destination buffer, separate from `input` because the load
///   is transposed.
/// - `partial_twiddles`: windowed inverse twiddle table, built by
///   [`build_partial_inv_twiddles`](twiddles::build_partial_inv_twiddles).
/// - `inv_n`: single-element buffer holding `N^{-1}` in Montgomery form.
///   Only used when `stage_offset == 0`.
/// - `log_n`, `log_pass`, `stage_offset`, `log_wg`, `z_count`, `batch`: as
///   for [`ntt_fwd_pass`](fwd_pass::ntt_fwd_pass).
pub fn ntt_inv_pass<P: MontyParameters>(
    input: &[u32],
    output: &mut [u32],
    partial_twiddles: &[u32],
    inv_n: &[u32],
    log_n: u32,
    log_pass: u32,
    stage_offset: u32,
    log_wg: u32,
    z_count: u32,
    batch: usize,
)
    requires
        fwd_pass::launch_fits(log_n, log_pass, stage_offset, log_wg, z_count),
        twiddles::is_partial_table::<P>(
            partial_twiddles@,
            twiddles::inv_omega::<P>(log_n as nat),
        ),
        inv_n@.len() >= 1,
        inv_n@[0] < P::PRIME,
        batch * po2::p2(log_n as nat) <= input@.len(),
        batch * po2::p2(log_n as nat) <= old(output)@.len(),
        tile::tile_reduced::<P>(input@, 0, batch * po2::p2(log_n as nat)),
    ensures
        final(output)@.len() == old(output)@.len(),
        tile::tile_reduced::<P>(final(output)@, 0, batch * po2::p2(log_n as nat)),
        forall|r: int|
            0 <= r < batch ==> layout::natural(
                log_n as nat,
                (log_n - stage_offset - log_pass) as nat,
                #[trigger] layout::row_values::<P>(final(output)@, log_n as nat, r),
            ) == transform::dif(
                P::PRIME as int,
                twiddles::inv_omega::<P>(log_n as nat),
                log_n as nat,
                layout::natural(
                    log_n as nat,
                    (log_n - stage_offset) as nat,
                    scaled(
                        P::PRIME as int,
                        stage_offset == 0,
                        monty::from_mont::<P>(inv_n@[0] as int),
                        layout::row_values::<P>(input@, log_n as nat, r),
                    ),
                ),
                stage_offset as nat,
                (stage_offset + log_pass) as nat,
            ),
        forall|k: int|
            batch * po2::p2(log_n as nat) <= k < old(output)@.len() ==> #[trigger] final(output)@[k]
                == old(output)@[k],
{
    let ghost m = P::PRIME as int;
    let ghost l = log_n as nat;
    let ghost lp = log_pass as nat;
    let ghost so = stage_offset as nat;
    let ghost w = twiddles::inv_omega::<P>(l);
    let ghost ni = monty::from_mont::<P>(inv_n@[0] as int);
    let n_inv_value = inv_n[0];
    let z: usize = z_count as usize;
    proof {
        let zk = choose|zk: nat| #[trigger] po2::p2(zk) == z_count;
        po2::lemma_p2(zk);
    }
    let log_z = po2::floor_log2(z);
    let ghost n = po2::p2(l);
    let ghost np = po2::p2(lp);
    proof {
        let zk = choose|zk: nat| #[trigger] po2::p2(zk) == z_count;
        po2::lemma_p2_mono(zk, log_z as nat);
        po2::lemma_p2_mono(log_z as nat, zk);
        po2::lemma_p2_mono(zk, (log_z + 1) as nat);
        po2::lemma_p2_mono(log_z as nat, (l - lp) as nat);
        po2::lemma_p2_adds((log_n - log_pass - log_z) as nat, log_z as nat);
        assert((log_n - log_pass - log_z) as nat + log_z as nat == (l - lp) as nat);
        po2::lemma_p2_adds((l - lp) as nat, lp);
        assert((l - lp) as nat + lp == l);
        po2::lemma_p2(l);
    }
    // Enough windows for exponents of log_n - 1 bits.
    let windows: u32 = (log_n + 8) / 10;
    let num_windows: u32 = if windows > 1 {
        windows
    } else {
        1
    };
    let tw = TwiddleTable::Windowed(partial_twiddles, num_windows);
    let row_len = po2::pow2_usize(log_n);
    let super_blocks = po2::pow2_usize(log_n - log_pass - log_z);
    let in_len = input.len();
    let ghost old_out = output@;
    proof {
        assert(super_blocks * z * np == n);
    }
    let mut row: usize = 0;
    while row < batch
        invariant
            row <= batch,
            m == P::PRIME,
            l == log_n,
            lp == log_pass,
            lp >= 1,
            so == stage_offset,
            w == twiddles::inv_omega::<P>(l),
            n_inv_value < P::PRIME,
            ni == monty::from_mont::<P>(n_inv_value as int),
            log_n < 32,
            log_wg < log_pass,
            stage_offset + log_pass <= log_n,
            log_z <= log_n - log_pass,
            z == po2::p2(log_z as nat),
            z > 0,
            n == po2::p2(l),
            n > 0,
            row_len == n,
            np == po2::p2(lp),
            np > 0,
            super_blocks == po2::p2((log_n - log_pass - log_z) as nat),
            super_blocks * z * np == n,
            tw.serves::<P>(w, l),
            batch * n <= in_len == input@.len(),
            batch * n <= old_out.len(),
            output@.len() == old_out.len(),
            tile::tile_reduced::<P>(input@, 0, batch * n),
            tile::tile_reduced::<P>(output@, 0, row * n),
            forall|r: int|
                0 <= r < row ==> layout::natural(
                    l,
                    (l - so - lp) as nat,
                    #[trigger] layout::row_values::<P>(output@, l, r),
                ) == transform::dif(
                    m,
                    w,
                    l,
                    layout::natural(
                        l,
                        (l - so) as nat,
                        scaled(m, so == 0, ni, layout::row_values::<P>(input@, l, r)),
                    ),
                    so,
                    (so + lp) as nat,
                ),
            forall|k: int| row * n <= k < old_out.len() ==> #[trigger] output@[k] == old_out[k],
        decreases batch - row,
    {
        proof {
            po2::lemma_within(row as int, batch as int, n, 0);
            assert((row + 1) * n == row * n + n) by (nonlinear_arith);
        }
        let batch_offset: usize = row * row_len;
        let ghost base = batch_offset as int;
        let ghost before = output@;
        let ghost src = scaled(m, so == 0, ni, layout::row_values::<P>(input@, l, row as int));
        let mut sb: usize = 0;
        proof {
            assert(0 * z * np == 0) by (nonlinear_arith);
        }
        while sb < super_blocks
            invariant
                sb <= super_blocks,
                m == P::PRIME,
                l == log_n,
                lp == log_pass,
                so == stage_offset,
                n_inv_value < P::PRIME,
                ni == monty::from_mont::<P>(n_inv_value as int),
                log_n < 32,
                log_wg < log_pass,
                stage_offset + log_pass <= log_n,
                log_z <= log_n - log_pass,
                z == po2::p2(log_z as nat),
                z > 0,
                n == po2::p2(l),
                np == po2::p2(lp),
                np > 0,
                super_blocks == po2::p2((log_n - log_pass - log_z) as nat),
                super_blocks * z * np == n,
                tw.serves::<P>(w, l),
                base == batch_offset,
                batch_offset + n <= input@.len(),
                batch_offset + n <= before.len(),
                output@.len() == before.len(),
                tile::tile_reduced::<P>(input@, base, n),
                src == scaled(m, so == 0, ni, tile::tile_values::<P>(input@, base, l)),
                forall|k: int|
                    0 <= k < before.len() ==> {
                        let v = #[trigger] output@[k];
                        if base <= k < base + sb * z * np {
                            &&& v < P::PRIME
                            &&& monty::from_mont::<P>(v as int) == layout::inv_pass_at(
                                m,
                                w,
                                l,
                                lp,
                                so,
                                src,
                                k - base,
                            )
                        } else {
                            v == before[k]
                        }
                    },
            decreases super_blocks - sb,
        {
            let ghost cur = output@;
            proof {
                assert((sb + 1) * z * np == sb * z * np + z * np && 0 <= sb * z * np)
                    by (nonlinear_arith)
                    requires
                        sb >= 0,
                        z > 0,
                        np > 0,
                ;
            }
            inv_workgroup::<P>(
                input,
                output,
                &tw,
                n_inv_value,
                log_n,
                log_pass,
                stage_offset,
                log_wg,
                z,
                log_z,
                sb,
                batch_offset,
                Ghost(w),
            );
            proof {
                assert forall|k: int| 0 <= k < before.len() implies {
                    let v = #[trigger] output@[k];
                    if base <= k < base + (sb + 1) * z * np {
                        &&& v < P::PRIME
                        &&& monty::from_mont::<P>(v as int) == layout::inv_pass_at(
                            m,
                            w,
                            l,
                            lp,
                            so,
                            src,
                            k - base,
                        )
                    } else {
                        v == before[k]
                    }
                } by {
                }
            }
            sb = sb + 1;
        }
        proof {
            let out_row = layout::row_values::<P>(output@, l, row as int);
            assert forall|k: int| 0 <= k < n implies #[trigger] out_row[k]
                == layout::inv_pass_at(m, w, l, lp, so, src, k) && output@[base + k]
                < P::PRIME by {
                let v = output@[base + k];
                assert(base + k - base == k);
            }
            layout::lemma_inv_pass(m, w, l, lp, so, src, out_row);
            assert forall|r: int| 0 <= r < row + 1 implies layout::natural(
                l,
                (l - so - lp) as nat,
                #[trigger] layout::row_values::<P>(output@, l, r),
            ) == transform::dif(
                m,
                w,
                l,
                layout::natural(
                    l,
                    (l - so) as nat,
                    scaled(m, so == 0, ni, layout::row_values::<P>(input@, l, r)),
                ),
                so,
                (so + lp) as nat,
            ) by {
                if r < row {
                    po2::lemma_within(r, row as int, n, 0);
                    assert(layout::row_values::<P>(output@, l, r)
                        =~= layout::row_values::<P>(before, l, r));
                }
            }
            assert forall|i: int| 0 <= i < (row + 1) * n implies #[trigger] output@[i]
                < P::PRIME by {
                if i < row * n {
                    assert(before[i] < P::PRIME);
                } else {
                    let k = i - base;
                    assert(out_row[k] == layout::inv_pass_at(m, w, l, lp, so, src, k));
                }
            }
        }
        row = row + 1;
    }
}

/// Only the first pass of an inverse transform scales, coefficient by
/// coefficient.
pub proof fn law_first_pass_scales(m: int, ni: int, row: Seq<int>, i: int)
    requires
        0 <= i < row.len(),
    ensures
        scaled(m, true, ni, row).len() == row.len(),
        scaled(m, true, ni, row)[i] == (ni * row[i]) % m,
        scaled(m, false, ni, row) == row,
{
}

} // verus!
