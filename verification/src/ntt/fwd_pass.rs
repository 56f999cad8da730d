//! Unified forward-NTT pass kernel.
//!
//! A single kernel handles every pass of a multi-pass forward NTT. The
//! executor calls it once per pass with different `(log_pass,
//! stage_offset)` pairs that tile the `log_n` stages.
//!
//! Results are stored in a transposed layout (into a separate output
//! buffer) so the next pass loads contiguously; for the final pass this is
//! the natural output order.
//!
//! Each workgroup processes `z_count` independent chunks of `2^log_pass`
//! elements. The grid is `(N / (N_pass * z_count), batch)`: the functions
//! here walk it block by block, and each block thread by thread.

use vstd::arithmetic::div_mod::*;
use vstd::arithmetic::mul::*;
use vstd::arithmetic::power2::*;
use vstd::prelude::*;

use crate::field::monty;
use crate::field::monty::MontyParameters;
use crate::po2;

use super::layout;
use super::tile;
use super::tile::{dit_tile_stage, TwiddleTable};
use super::transform;
use super::twiddles;

verus! {

/// The sizes of one launch fit together: the pass covers `log_pass` of the
/// `log_n` stages from `stage_offset` on, a workgroup of `2^log_wg` threads
/// has at least one butterfly per thread, and `z_count` chunks at a time
/// divide the work evenly.
pub open spec fn launch_fits(
    log_n: u32,
    log_pass: u32,
    stage_offset: u32,
    log_wg: u32,
    z_count: u32,
) -> bool {
    &&& log_n < 32
    &&& stage_offset + log_pass <= log_n
    &&& log_wg < log_pass
    &&& po2::is_po2(z_count as int)
    &&& z_count <= po2::p2((log_n - log_pass) as nat)
}

/// Which entries of a row workgroup `sb` stores.
pub open spec fn stored_by(k: int, base: int, n: int, n_other: int, z: int, sb: int) -> bool {
    &&& base <= k < base + n
    &&& ((k - base) % n_other) / z == sb
}

/// In which order a workgroup stores entry `k`: `z` adjacent chunks side by
/// side.
spec fn store_slot(k: int, base: int, n_other: int, z: int) -> int {
    ((k - base) / n_other) * z + ((k - base) % n_other) % z
}

/// Which cell of shared memory entry `k` is stored from.
spec fn shared_slot(k: int, base: int, n_other: int, n_pass: int, z: int) -> int {
    (((k - base) % n_other) % z) * n_pass + (k - base) / n_other
}

/// `flat` is the place of exactly one entry of the block.
proof fn lemma_store_slot(
    k: int,
    base: int,
    n_other: int,
    n_pass: int,
    z: int,
    blocks: int,
    sb: int,
    flat: int,
    i: int,
    zi: int,
    target: int,
)
    requires
        z > 0,
        n_pass > 0,
        n_other == blocks * z,
        0 <= sb < blocks,
        0 <= flat < n_pass * z,
        i == flat / z,
        zi == flat % z,
        target == base + i * n_other + (sb * z + zi),
        k >= base,
    ensures
        0 <= i < n_pass,
        0 <= zi < z,
        0 <= sb * z + zi < n_other,
        stored_by(target, base, n_pass * n_other, n_other, z, sb),
        store_slot(target, base, n_other, z) == flat,
        shared_slot(target, base, n_other, n_pass, z) == zi * n_pass + i,
        stored_by(k, base, n_pass * n_other, n_other, z, sb) && store_slot(k, base, n_other, z)
            == flat ==> k == target,
{
    po2::lemma_join(flat, z);
    po2::lemma_quotient_below(flat, n_pass, z);
    po2::lemma_within(sb, blocks, z, zi);
    let g = sb * z + zi;
    po2::lemma_split(i, n_other, g);
    po2::lemma_split(sb, z, zi);
    po2::lemma_within(i, n_pass, n_other, g);
    assert(target - base == i * n_other + g);
    if stored_by(k, base, n_pass * n_other, n_other, z, sb) && store_slot(k, base, n_other, z)
        == flat {
        let r = k - base;
        po2::lemma_join(r, n_other);
        let c = r % n_other;
        po2::lemma_join(c, z);
        po2::lemma_split(r / n_other, z, c % z);
    }
}

/// The cells of shared memory that a block stores from are within it.
proof fn lemma_shared_slot(
    k: int,
    base: int,
    n_other: int,
    n_pass: int,
    z: int,
    sb: int,
)
    requires
        z > 0,
        n_pass > 0,
        n_other > 0,
        stored_by(k, base, n_pass * n_other, n_other, z, sb),
    ensures
        ({
            let zi = ((k - base) % n_other) % z;
            let i = (k - base) / n_other;
            &&& 0 <= zi < z
            &&& 0 <= i < n_pass
            &&& (k - base) % n_other == sb * z + zi
            &&& shared_slot(k, base, n_other, n_pass, z) == zi * n_pass + i
            &&& 0 <= store_slot(k, base, n_other, z) < n_pass * z
            &&& 0 <= zi * n_pass + i < z * n_pass
        }),
{
    let r = k - base;
    po2::lemma_quotient_below(r, n_pass, n_other);
    po2::lemma_join(r, n_other);
    po2::lemma_join(r % n_other, z);
    po2::lemma_within(r / n_other, n_pass, z, (r % n_other) % z);
    po2::lemma_within((r % n_other) % z, z, n_pass, r / n_other);
}

/// Run all butterfly stages of a workgroup's `z` slabs.
pub(crate) fn fwd_stages<P: MontyParameters>(
    shared: &mut Vec<u32>,
    tw: &TwiddleTable<'_>,
    log_n: u32,
    log_pass: u32,
    stage_offset: u32,
    log_wg: u32,
    z: usize,
    super_block: usize,
    Ghost(w): Ghost<int>,
)
    requires
        log_n < 32,
        stage_offset + log_pass <= log_n,
        log_wg < log_pass,
        super_block * z + z <= po2::p2((log_n - log_pass) as nat),
        old(shared)@.len() == z * po2::p2(log_pass as nat),
        tile::tile_reduced::<P>(old(shared)@, 0, old(shared)@.len() as int),
        tw.serves::<P>(w, log_n as nat),
    ensures
        final(shared)@.len() == old(shared)@.len(),
        tile::tile_reduced::<P>(final(shared)@, 0, final(shared)@.len() as int),
        forall|zi: int|
            0 <= zi < z ==> #[trigger] tile::tile_values::<P>(
                final(shared)@,
                zi * po2::p2(log_pass as nat),
                log_pass as nat,
            ) == tile::tile_dit(
                P::PRIME as int,
                w,
                log_n as nat,
                log_pass as nat,
                stage_offset as nat,
                (super_block * z + zi) / po2::p2((log_n - stage_offset - log_pass) as nat),
                tile::tile_values::<P>(
                    old(shared)@,
                    zi * po2::p2(log_pass as nat),
                    log_pass as nat,
                ),
                log_pass as nat,
            ),
{
    let ghost m = P::PRIME as int;
    let ghost l = log_n as nat;
    let ghost lp = log_pass as nat;
    let ghost so = stage_offset as nat;
    let ghost np = po2::p2(lp);
    let ghost rem = (l - so - lp) as nat;
    let ghost orig = shared@;
    let log_remaining: u32 = log_n - stage_offset - log_pass;
    let n_pass = po2::pow2_usize(log_pass);
    let total = shared.len();
    proof {
        po2::lemma_p2(lp);
        po2::lemma_p2_adds(so, rem);
        assert(so + rem == (l - lp) as nat);
        po2::lemma_p2_mono((l - lp) as nat, 31);
        lemma2_to64();
    }
    let mut s: u32 = 0;
    while s < log_pass
        invariant
            s <= log_pass,
            m == P::PRIME,
            l == log_n,
            lp == log_pass,
            so == stage_offset,
            log_n < 32,
            log_wg < log_pass,
            stage_offset + log_pass <= log_n,
            rem == (l - so - lp) as nat,
            log_remaining == rem,
            po2::p2((l - lp) as nat) == po2::p2(so) * po2::p2(rem),
            po2::p2((l - lp) as nat) <= 0x8000_0000,
            np == po2::p2(lp),
            n_pass == np,
            np > 0,
            super_block * z + z <= po2::p2((l - lp) as nat),
            total == z * np,
            orig.len() == total,
            shared@.len() == total,
            tile::tile_reduced::<P>(shared@, 0, total as int),
            tw.serves::<P>(w, l),
            forall|zi: int|
                0 <= zi < z ==> #[trigger] tile::tile_values::<P>(shared@, zi * np, lp)
                    == tile::tile_dit(
                    m,
                    w,
                    l,
                    lp,
                    so,
                    (super_block * z + zi) / po2::p2(rem),
                    tile::tile_values::<P>(orig, zi * np, lp),
                    s as nat,
                ),
        decreases log_pass - s,
    {
        let ghost before = shared@;
        let mut zi: usize = 0;
        while zi < z
            invariant
                zi <= z,
                s < log_pass,
                m == P::PRIME,
                l == log_n,
                lp == log_pass,
                so == stage_offset,
                log_n < 32,
                log_wg < log_pass,
                stage_offset + log_pass <= log_n,
                rem == (l - so - lp) as nat,
                log_remaining == rem,
                po2::p2((l - lp) as nat) == po2::p2(so) * po2::p2(rem),
                po2::p2((l - lp) as nat) <= 0x8000_0000,
                np == po2::p2(lp),
                n_pass == np,
                np > 0,
                super_block * z + z <= po2::p2((l - lp) as nat),
                total == z * np,
                shared@.len() == total,
                before.len() == total,
                tile::tile_reduced::<P>(shared@, 0, total as int),
                tw.serves::<P>(w, l),
                forall|c: int|
                    0 <= c < zi ==> #[trigger] tile::tile_values::<P>(shared@, c * np, lp)
                        == Seq::new(
                        pow2(lp),
                        |i: int|
                            tile::tile_dit_at(
                                m,
                                w,
                                l,
                                so,
                                (super_block * z + c) / po2::p2(rem),
                                tile::tile_values::<P>(before, c * np, lp),
                                s as nat,
                                i,
                            ),
                    ),
                forall|k: int| zi * np <= k < total ==> #[trigger] shared@[k] == before[k],
            decreases z - zi,
        {
            proof {
                po2::lemma_within(zi as int, z as int, np, 0);
                lemma_mul_is_commutative(super_block as int, z as int);
                assert(0 <= super_block * z) by (nonlinear_arith);
                po2::lemma_p2(rem);
                po2::lemma_quotient_below(super_block * z + zi, po2::p2(so), po2::p2(rem));
            }
            let base: usize = zi * n_pass;
            let wg_pos: u32 = (super_block * z + zi) as u32;
            let effective_wg = po2::shr_u32(wg_pos, log_remaining);
            let ghost cur = shared@;
            dit_tile_stage::<P>(
                shared,
                base,
                tw,
                log_n,
                log_pass,
                stage_offset,
                effective_wg,
                s,
                log_wg,
                Ghost(w),
            );
            proof {
                assert((zi + 1) * np == zi * np + np) by (nonlinear_arith);
                let tv = tile::tile_values::<P>(before, zi * np, lp);
                assert(tile::tile_values::<P>(cur, zi * np, lp) =~= tv);
                assert forall|c: int| 0 <= c < zi + 1 implies #[trigger] tile::tile_values::<P>(
                    shared@,
                    c * np,
                    lp,
                ) == Seq::new(
                    pow2(lp),
                    |i: int|
                        tile::tile_dit_at(
                            m,
                            w,
                            l,
                            so,
                            (super_block * z + c) / po2::p2(rem),
                            tile::tile_values::<P>(before, c * np, lp),
                            s as nat,
                            i,
                        ),
                ) by {
                    if c < zi {
                        po2::lemma_within(c, zi as int, np, 0);
                        assert(tile::tile_values::<P>(shared@, c * np, lp)
                            =~= tile::tile_values::<P>(cur, c * np, lp));
                    }
                }
                assert forall|i: int| 0 <= i < total implies #[trigger] shared@[i]
                    < P::PRIME by {
                    assert(cur[i] < P::PRIME);
                }
            }
            zi = zi + 1;
        }
        proof {
            assert forall|c: int| 0 <= c < z implies #[trigger] tile::tile_values::<P>(
                shared@,
                c * np,
                lp,
            ) == tile::tile_dit(
                m,
                w,
                l,
                lp,
                so,
                (super_block * z + c) / po2::p2(rem),
                tile::tile_values::<P>(orig, c * np, lp),
                (s + 1) as nat,
            ) by {
                assert(tile::tile_values::<P>(before, c * np, lp) == tile::tile_dit(
                    m,
                    w,
                    l,
                    lp,
                    so,
                    (super_block * z + c) / po2::p2(rem),
                    tile::tile_values::<P>(orig, c * np, lp),
                    s as nat,
                ));
                assert(((s + 1) as nat - 1) as nat == s as nat);
            }
        }
        s = s + 1;
    }
}

/// One workgroup of the pass: load `z` chunks, run the stages in shared
/// memory, store transposed.
fn fwd_workgroup<P: MontyParameters>(
    input: &[u32],
    output: &mut [u32],
    tw: &TwiddleTable<'_>,
    log_n: u32,
    log_pass: u32,
    stage_offset: u32,
    log_wg: u32,
    z: usize,
    log_z: u32,
    super_block: usize,
    batch_offset: usize,
    Ghost(w): Ghost<int>,
)
    requires
        log_n < 32,
        stage_offset + log_pass <= log_n,
        log_wg < log_pass,
        z == po2::p2(log_z as nat),
        log_z <= log_n - log_pass,
        super_block < po2::p2((log_n - log_pass - log_z) as nat),
        batch_offset + po2::p2(log_n as nat) <= input@.len(),
        batch_offset + po2::p2(log_n as nat) <= old(output)@.len(),
        tile::tile_reduced::<P>(input@, batch_offset as int, po2::p2(log_n as nat)),
        tw.serves::<P>(w, log_n as nat),
    ensures
        final(output)@.len() == old(output)@.len(),
        forall|k: int|
            0 <= k < old(output)@.len() ==> {
                let v = #[trigger] final(output)@[k];
                if stored_by(
                    k,
                    batch_offset as int,
                    po2::p2(log_n as nat),
                    po2::p2((log_n - log_pass) as nat),
                    z as int,
                    super_block as int,
                ) {
                    &&& v < P::PRIME
                    &&& monty::from_mont::<P>(v as int) == layout::fwd_pass_at(
                        P::PRIME as int,
                        w,
                        log_n as nat,
                        log_pass as nat,
                        stage_offset as nat,
                        tile::tile_values::<P>(input@, batch_offset as int, log_n as nat),
                        k - batch_offset,
                    )
                } else {
                    v == old(output)@[k]
                }
            },
{
    let ghost m = P::PRIME as int;
    let ghost l = log_n as nat;
    let ghost lp = log_pass as nat;
    let ghost so = stage_offset as nat;
    let ghost row = tile::tile_values::<P>(input@, batch_offset as int, l);
    let ghost rem = (l - so - lp) as nat;
    let ghost blocks = po2::p2((log_n - log_pass - log_z) as nat);
    let n = po2::pow2_usize(log_n);
    let n_pass = po2::pow2_usize(log_pass);
    let n_other = po2::pow2_usize(log_n - log_pass);
    let wg_size = po2::pow2_usize(log_wg);
    let loads_per_thread = po2::pow2_usize(log_pass - log_wg);
    let in_len = input.len();
    let out_len = output.len();
    proof {
        po2::lemma_p2_adds(lp, (l - lp) as nat);
        assert(lp + (l - lp) as nat == l);
        po2::lemma_p2_adds((log_n - log_pass - log_z) as nat, log_z as nat);
        assert((log_n - log_pass - log_z) as nat + log_z as nat == (l - lp) as nat);
        po2::lemma_p2_adds((log_pass - log_wg) as nat, log_wg as nat);
        assert((log_pass - log_wg) as nat + log_wg as nat == lp);
        assert(n == n_pass * n_other && n_other == blocks * z && n_pass == loads_per_thread
            * wg_size);
        po2::lemma_within(super_block as int, blocks, z as int, 0);
        po2::lemma_p2_mono(l, 31);
        lemma2_to64();
        assert(z * n_pass <= n_pass * n_other) by (nonlinear_arith)
            requires
                z <= n_other,
                n_pass > 0,
        ;
    }
    let ghost first = super_block * z;
    // -- Load ------------------------------------------------------------
    let mut shared: Vec<u32> = Vec::with_capacity(z * n_pass);
    let mut zi: usize = 0;
    while zi < z
        invariant
            zi <= z,
            n == n_pass * n_other,
            n_other == blocks * z,
            n_pass == loads_per_thread * wg_size,
            n == po2::p2(l),
            n <= 0x8000_0000,
            wg_size > 0,
            0 <= super_block < blocks,
            first == super_block * z,
            0 <= first,
            first + z <= n_other,
            batch_offset + n <= in_len == input@.len(),
            tile::tile_reduced::<P>(input@, batch_offset as int, n as int),
            shared@.len() == zi * n_pass,
            n_pass > 0,
            z * n_pass <= n,
            forall|c: int, i: int|
                0 <= c < zi && 0 <= i < n_pass ==> #[trigger] shared@[c * n_pass + i]
                    == input@[batch_offset + (first + c) * n_pass + i],
            tile::tile_reduced::<P>(shared@, 0, shared@.len() as int),
        decreases z - zi,
    {
        proof {
            po2::lemma_within(first + zi, n_other as int, n_pass as int, 0);
            lemma_mul_is_commutative(n_pass as int, n_other as int);
            po2::lemma_within(zi as int, z as int, n_pass as int, 0);
        }
        let slab_base: usize = batch_offset + (super_block * z + zi) * n_pass;
        let ghost start = shared@;
        let mut k: usize = 0;
        while k < loads_per_thread
            invariant
                k <= loads_per_thread,
                n_pass == loads_per_thread * wg_size,
                wg_size > 0,
                slab_base + n_pass <= in_len == input@.len(),
                shared@.len() == start.len() + k * wg_size,
                forall|i: int| 0 <= i < start.len() ==> #[trigger] shared@[i] == start[i],
                forall|i: int|
                    start.len() <= i < shared@.len() ==> #[trigger] shared@[i] == input@[slab_base
                        + (i - start.len())],
            decreases loads_per_thread - k,
        {
            proof {
                po2::lemma_within(k as int, loads_per_thread as int, wg_size as int, 0);
                assert((k + 1) * wg_size == k * wg_size + wg_size) by (nonlinear_arith);
            }
            let mut tid: usize = 0;
            while tid < wg_size
                invariant
                    tid <= wg_size,
                    0 <= k * wg_size,
                    k * wg_size + wg_size <= n_pass,
                    slab_base + n_pass <= in_len == input@.len(),
                    shared@.len() == start.len() + k * wg_size + tid,
                    forall|i: int| 0 <= i < start.len() ==> #[trigger] shared@[i] == start[i],
                    forall|i: int|
                        start.len() <= i < shared@.len() ==> #[trigger] shared@[i]
                            == input@[slab_base + (i - start.len())],
                decreases wg_size - tid,
            {
                let local_idx: usize = tid + k * wg_size;
                shared.push(input[slab_base + local_idx]);
                tid = tid + 1;
            }
            k = k + 1;
        }
        proof {
            assert((zi + 1) * n_pass == zi * n_pass + n_pass) by (nonlinear_arith);
            assert forall|c: int, i: int| 0 <= c < zi + 1 && 0 <= i < n_pass implies #[trigger]
                shared@[c * n_pass + i] == input@[batch_offset + (first + c) * n_pass + i] by {
                if c < zi {
                    po2::lemma_within(c, zi as int, n_pass as int, i);
                    assert(shared@[c * n_pass + i] == start[c * n_pass + i]);
                } else {
                    assert(shared@[zi * n_pass + i] == input@[slab_base + i]);
                }
            }
            assert forall|i: int| 0 <= i < shared@.len() implies #[trigger] shared@[i]
                < P::PRIME by {
                if i < start.len() {
                    assert(start[i] < P::PRIME);
                } else {
                    assert(input@[slab_base + (i - start.len())] < P::PRIME);
                }
            }
        }
        zi = zi + 1;
    }
    let ghost loaded = shared@;
    // -- Butterfly stages -------------------------------------------------
    fwd_stages::<P>(
        &mut shared,
        tw,
        log_n,
        log_pass,
        stage_offset,
        log_wg,
        z,
        super_block,
        Ghost(w),
    );
    // -- Store (always transposed) ----------------------------------------
    proof {
        assert(z * loads_per_thread <= z * n_pass) by (nonlinear_arith)
            requires
                n_pass == loads_per_thread * wg_size,
                wg_size >= 1,
                z >= 0,
                loads_per_thread >= 0,
        ;
    }
    let stores_per_thread: usize = z * loads_per_thread;
    let ghost old_out = output@;
    let ghost base = batch_offset as int;
    proof {
        assert(stores_per_thread * wg_size == n_pass * z) by (nonlinear_arith)
            requires
                stores_per_thread == z * loads_per_thread,
                n_pass == loads_per_thread * wg_size,
        ;
        lemma_mul_is_commutative(n_pass as int, z as int);
    }
    let mut iter: usize = 0;
    while iter < stores_per_thread
        invariant
            iter <= stores_per_thread,
            stores_per_thread * wg_size == n_pass * z,
            n == n_pass * n_other,
            n_other == blocks * z,
            z == po2::p2(log_z as nat),
            log_z < 32,
            z > 0,
            n_pass > 0,
            wg_size > 0,
            n <= 0x8000_0000,
            z * n_pass <= n,
            0 <= super_block < blocks,
            base == batch_offset,
            shared@.len() == z * n_pass,
            batch_offset + n <= out_len,
            out_len == old_out.len(),
            output@.len() == old_out.len(),
            forall|k: int|
                0 <= k < old_out.len() ==> #[trigger] output@[k] == (if stored_by(
                    k,
                    base,
                    n as int,
                    n_other as int,
                    z as int,
                    super_block as int,
                ) && store_slot(k, base, n_other as int, z as int) < iter * wg_size {
                    shared@[shared_slot(k, base, n_other as int, n_pass as int, z as int)]
                } else {
                    old_out[k]
                }),
        decreases stores_per_thread - iter,
    {
        proof {
            po2::lemma_within(iter as int, stores_per_thread as int, wg_size as int, 0);
            assert((iter + 1) * wg_size == iter * wg_size + wg_size) by (nonlinear_arith);
        }
        let mut tid: usize = 0;
        while tid < wg_size
            invariant
                tid <= wg_size,
                0 <= iter * wg_size,
                iter * wg_size + wg_size <= n_pass * z,
                n == n_pass * n_other,
                n_other == blocks * z,
                z == po2::p2(log_z as nat),
                log_z < 32,
                z > 0,
                n_pass > 0,
                n <= 0x8000_0000,
                z * n_pass <= n,
                0 <= super_block < blocks,
                base == batch_offset,
                shared@.len() == z * n_pass,
                batch_offset + n <= out_len,
                out_len == old_out.len(),
                output@.len() == old_out.len(),
                forall|k: int|
                    0 <= k < old_out.len() ==> #[trigger] output@[k] == (if stored_by(
                        k,
                        base,
                        n as int,
                        n_other as int,
                        z as int,
                        super_block as int,
                    ) && store_slot(k, base, n_other as int, z as int) < iter * wg_size + tid {
                        shared@[shared_slot(k, base, n_other as int, n_pass as int, z as int)]
                    } else {
                        old_out[k]
                    }),
            decreases wg_size - tid,
        {
            proof {
                lemma_mul_is_commutative(n_pass as int, z as int);
            }
            let flat: usize = tid + iter * wg_size;
            let local_idx = po2::shr_usize(flat, log_z);
            let zi = po2::low_usize(flat, log_z);
            let ghost target = base + local_idx * n_other + (super_block * z + zi);
            proof {
                lemma_store_slot(
                    target,
                    base,
                    n_other as int,
                    n_pass as int,
                    z as int,
                    blocks,
                    super_block as int,
                    flat as int,
                    local_idx as int,
                    zi as int,
                    target,
                );
                po2::lemma_within(
                    local_idx as int,
                    n_pass as int,
                    n_other as int,
                    super_block * z + zi,
                );
                po2::lemma_within(super_block as int, blocks, z as int, zi as int);
                po2::lemma_within(zi as int, z as int, n_pass as int, local_idx as int);
            }
            let chunk_id: usize = super_block * z + zi;
            let at: usize = batch_offset + local_idx * n_other + chunk_id;
            let ghost before = output@;
            output[at] = shared[zi * n_pass + local_idx];
            proof {
                assert forall|k: int| 0 <= k < old_out.len() implies #[trigger] output@[k] == (
                if stored_by(
                    k,
                    base,
                    n as int,
                    n_other as int,
                    z as int,
                    super_block as int,
                ) && store_slot(k, base, n_other as int, z as int) < iter * wg_size + tid + 1 {
                    shared@[shared_slot(k, base, n_other as int, n_pass as int, z as int)]
                } else {
                    old_out[k]
                }) by {
                    if k >= base {
                        lemma_store_slot(
                            k,
                            base,
                            n_other as int,
                            n_pass as int,
                            z as int,
                            blocks,
                            super_block as int,
                            flat as int,
                            local_idx as int,
                            zi as int,
                            target,
                        );
                    }
                    if k != at {
                        assert(output@[k] == before[k]);
                    }
                }
            }
            tid = tid + 1;
        }
        iter = iter + 1;
    }
    proof {
        assert forall|k: int| 0 <= k < old_out.len() implies {
            let v = #[trigger] output@[k];
            if stored_by(k, base, n as int, n_other as int, z as int, super_block as int) {
                &&& v < P::PRIME
                &&& monty::from_mont::<P>(v as int) == layout::fwd_pass_at(
                    m,
                    w,
                    l,
                    lp,
                    so,
                    row,
                    k - base,
                )
            } else {
                v == old_out[k]
            }
        } by {
            if stored_by(k, base, n as int, n_other as int, z as int, super_block as int) {
                lemma_shared_slot(
                    k,
                    base,
                    n_other as int,
                    n_pass as int,
                    z as int,
                    super_block as int,
                );
                let g = (k - base) % n_other as int;
                let i = (k - base) / n_other as int;
                let zi = g % z as int;
                let v = output@[k];
                assert(v == shared@[zi * n_pass + i]);
                let done = tile::tile_values::<P>(shared@, zi * n_pass, lp);
                assert(done[i] == monty::from_mont::<P>(v as int));
                // The slab that was loaded is chunk g of the row.
                let ch = transform::block(row, n_pass as int, g);
                let slab = tile::tile_values::<P>(loaded, zi * n_pass, lp);
                po2::lemma_within(super_block as int, blocks, z as int, zi);
                assert forall|b: int| 0 <= b < n_pass implies slab[b] == ch[b] by {
                    assert(loaded[zi * n_pass + b] == input@[batch_offset + (first + zi)
                        * n_pass + b]);
                    po2::lemma_within(g, n_other as int, n_pass as int, b);
                    lemma_mul_is_commutative(n_pass as int, n_other as int);
                }
                assert(slab =~= ch);
                assert(super_block * z + zi == g);
            }
        }
    }
}

/// Single forward-NTT pass: decimation-in-time butterflies for `log_pass`
/// stages starting at global stage `stage_offset`, on each of `batch`
/// polynomials.
///
/// - `input`: source buffer.
/// - `output`: destination buffer, separate from `input` because the store
///   is transposed.
/// - `partial_twiddles`: windowed twiddle table, built by
///   [`build_partial_fwd_twiddles`](twiddles::build_partial_fwd_twiddles).
/// - `log_n`: total transform size (`N = 2^log_n`).
/// - `log_pass`: number of stages this pass handles (`N_pass = 2^log_pass`).
/// - `stage_offset`: global stage index where this pass begins.
/// - `log_wg`: workgroup size exponent.
/// - `z_count`: chunks per workgroup (shared memory is `z_count * N_pass`).
/// - `batch`: number of polynomials.
pub fn ntt_fwd_pass<P: MontyParameters>(
    input: &[u32],
    output: &mut [u32],
    partial_twiddles: &[u32],
    log_n: u32,
    log_pass: u32,
    stage_offset: u32,
    log_wg: u32,
    z_count: u32,
    batch: usize,
)
    requires
        launch_fits(log_n, log_pass, stage_offset, log_wg, z_count),
        twiddles::is_partial_table::<P>(
            partial_twiddles@,
            twiddles::omega::<P>(log_n as nat),
        ),
        batch * po2::p2(log_n as nat) <= input@.len(),
        batch * po2::p2(log_n as nat) <= old(output)@.len(),
        tile::tile_reduced::<P>(input@, 0, batch * po2::p2(log_n as nat)),
    ensures
        final(output)@.len() == old(output)@.len(),
        tile::tile_reduced::<P>(final(output)@, 0, batch * po2::p2(log_n as nat)),
        forall|r: int|
            0 <= r < batch ==> layout::natural(
                log_n as nat,
                (stage_offset + log_pass) as nat,
                #[trigger] layout::row_values::<P>(final(output)@, log_n as nat, r),
            ) == transform::dit(
                P::PRIME as int,
                twiddles::omega::<P>(log_n as nat),
                log_n as nat,
                layout::natural(
                    log_n as nat,
                    stage_offset as nat,
                    layout::row_values::<P>(input@, log_n as nat, r),
                ),
                stage_offset as nat,
                (stage_offset + log_pass) as nat,
            ),
        forall|k: int|
            batch * po2::p2(log_n as nat) <= k < old(output)@.len()
                ==> #[trigger] final(output)@[k] == old(output)@[k],
{
    let ghost m = P::PRIME as int;
    let ghost l = log_n as nat;
    let ghost lp = log_pass as nat;
    let ghost so = stage_offset as nat;
    let ghost w = twiddles::omega::<P>(l);
    let z: usize = z_count as usize;
    proof {
        let zk = choose|zk: nat| #[trigger] po2::p2(zk) == z_count;
        po2::lemma_p2(zk);
    }
    let log_z = po2::floor_log2(z);
    let ghost n = po2::p2(l);
    let ghost n_other = po2::p2((l - lp) as nat);
    proof {
        let zk = choose|zk: nat| #[trigger] po2::p2(zk) == z_count;
        po2::lemma_p2_mono(zk, log_z as nat);
        po2::lemma_p2_mono(log_z as nat, zk);
        po2::lemma_p2_mono(zk, (log_z + 1) as nat);
        po2::lemma_p2_mono(log_z as nat, (l - lp) as nat);
        po2::lemma_p2_adds((log_n - log_pass - log_z) as nat, log_z as nat);
        assert((log_n - log_pass - log_z) as nat + log_z as nat == (l - lp) as nat);
        po2::lemma_p2_adds(lp, (l - lp) as nat);
        assert(lp + (l - lp) as nat == l);
        po2::lemma_p2(l);
    }
    // Enough windows for exponents of log_n - 1 bits.
    let windows: u32 = (log_n + 8) / 10;
    let num_windows: u32 = if windows > 1 {
        windows
    } else {
        1
    };
    let tw = TwiddleTable::Windowed(partial_twiddles, num_windows);
    let row_len = po2::pow2_usize(log_n);
    let super_blocks = po2::pow2_usize(log_n - log_pass - log_z);
    let in_len = input.len();
    let ghost old_out = output@;
    let mut row: usize = 0;
    while row < batch
        invariant
            row <= batch,
            m == P::PRIME,
            l == log_n,
            lp == log_pass,
            so == stage_offset,
            w == twiddles::omega::<P>(l),
            log_n < 32,
            log_wg < log_pass,
            stage_offset + log_pass <= log_n,
            log_z <= log_n - log_pass,
            z == po2::p2(log_z as nat),
            z > 0,
            n == po2::p2(l),
            n > 0,
            row_len == n,
            n_other == po2::p2((l - lp) as nat),
            n_other > 0,
            super_blocks == po2::p2((log_n - log_pass - log_z) as nat),
            n_other == super_blocks * z,
            tw.serves::<P>(w, l),
            batch * n <= in_len == input@.len(),
            batch * n <= old_out.len(),
            output@.len() == old_out.len(),
            tile::tile_reduced::<P>(input@, 0, batch * n),
            tile::tile_reduced::<P>(output@, 0, row * n),
            forall|r: int|
                0 <= r < row ==> layout::natural(
                    l,
                    (so + lp) as nat,
                    #[trigger] layout::row_values::<P>(output@, l, r),
                ) == transform::dit(
                    m,
                    w,
                    l,
                    layout::natural(l, so, layout::row_values::<P>(input@, l, r)),
                    so,
                    (so + lp) as nat,
                ),
            forall|k: int| row * n <= k < old_out.len() ==> #[trigger] output@[k] == old_out[k],
        decreases batch - row,
    {
        proof {
            po2::lemma_within(row as int, batch as int, n, 0);
            assert((row + 1) * n == row * n + n) by (nonlinear_arith);
        }
        let batch_offset: usize = row * row_len;
        let ghost base = batch_offset as int;
        let ghost before = output@;
        let ghost in_row = layout::row_values::<P>(input@, l, row as int);
        let mut sb: usize = 0;
        while sb < super_blocks
            invariant
                sb <= super_blocks,
                m == P::PRIME,
                l == log_n,
                lp == log_pass,
                so == stage_offset,
                log_n < 32,
                log_wg < log_pass,
                stage_offset + log_pass <= log_n,
                log_z <= log_n - log_pass,
                z == po2::p2(log_z as nat),
                z > 0,
                n == po2::p2(l),
                n_other == po2::p2((l - lp) as nat),
                n_other > 0,
                super_blocks == po2::p2((log_n - log_pass - log_z) as nat),
                tw.serves::<P>(w, l),
                base == batch_offset,
                batch_offset + n <= input@.len(),
                batch_offset + n <= before.len(),
                output@.len() == before.len(),
                tile::tile_reduced::<P>(input@, base, n),
                in_row == tile::tile_values::<P>(input@, base, l),
                forall|k: int|
                    0 <= k < before.len() ==> {
                        let v = #[trigger] output@[k];
                        if base <= k < base + n && ((k - base) % n_other) / (z as int) < sb {
                            &&& v < P::PRIME
                            &&& monty::from_mont::<P>(v as int) == layout::fwd_pass_at(
                                m,
                                w,
                                l,
                                lp,
                                so,
                                in_row,
                                k - base,
                            )
                        } else {
                            v == before[k]
                        }
                    },
            decreases super_blocks - sb,
        {
            let ghost cur = output@;
            fwd_workgroup::<P>(
                input,
                output,
                &tw,
                log_n,
                log_pass,
                stage_offset,
                log_wg,
                z,
                log_z,
                sb,
                batch_offset,
                Ghost(w),
            );
            proof {
                assert forall|k: int| 0 <= k < before.len() implies {
                    let v = #[trigger] output@[k];
                    if base <= k < base + n && ((k - base) % n_other) / (z as int) < sb + 1 {
                        &&& v < P::PRIME
                        &&& monty::from_mont::<P>(v as int) == layout::fwd_pass_at(
                            m,
                            w,
                            l,
                            lp,
                            so,
                            in_row,
                            k - base,
                        )
                    } else {
                        v == before[k]
                    }
                } by {
                    if stored_by(k, base, n, n_other, z as int, sb as int) {
                    } else {
                        assert(output@[k] == cur[k]);
                    }
                }
            }
            sb = sb + 1;
        }
        proof {
            let out_row = layout::row_values::<P>(output@, l, row as int);
            assert forall|k: int| 0 <= k < n implies #[trigger] out_row[k]
                == layout::fwd_pass_at(m, w, l, lp, so, in_row, k) && output@[base + k]
                < P::PRIME by {
                lemma_mod_bound(k, n_other);
                po2::lemma_quotient_below(k % n_other, super_blocks as int, z as int);
                let v = output@[base + k];
                assert(base + k - base == k);
            }
            layout::lemma_fwd_pass(m, w, l, lp, so, in_row, out_row);
            assert forall|r: int| 0 <= r < row + 1 implies layout::natural(
                l,
                (so + lp) as nat,
                #[trigger] layout::row_values::<P>(output@, l, r),
            ) == transform::dit(
                m,
                w,
                l,
                layout::natural(l, so, layout::row_values::<P>(input@, l, r)),
                so,
                (so + lp) as nat,
            ) by {
                if r < row {
                    po2::lemma_within(r, row as int, n, 0);
                    assert(layout::row_values::<P>(output@, l, r)
                        =~= layout::row_values::<P>(before, l, r));
                }
            }
            assert forall|i: int| 0 <= i < (row + 1) * n implies #[trigger] output@[i]
                < P::PRIME by {
                if i < row * n {
                    assert(before[i] < P::PRIME);
                } else {
                    let k = i - base;
                    assert(out_row[k] == layout::fwd_pass_at(m, w, l, lp, so, in_row, k));
                }
            }
        }
        row = row + 1;
    }
}

/// What a pass asks of its launch, written out.
pub proof fn law_launchable(
    log_n: u32,
    log_pass: u32,
    stage_offset: u32,
    log_wg: u32,
    z_count: u32,
)
    ensures
        launch_fits(log_n, log_pass, stage_offset, log_wg, z_count) <==> {
            &&& log_n < 32
            &&& stage_offset + log_pass <= log_n
            &&& log_wg < log_pass
            &&& exists|a: nat| #[trigger] pow2(a) == z_count
            &&& z_count <= pow2((log_n - log_pass) as nat)
        },
{
    if po2::is_po2(z_count as int) {
        let a = choose|a: nat| #[trigger] po2::p2(a) == z_count;
        assert(pow2(a) == z_count);
    }
    if exists|a: nat| #[trigger] pow2(a) == z_count {
        let a = choose|a: nat| #[trigger] pow2(a) == z_count;
        assert(po2::p2(a) == z_count);
    }
}

} // verus!
