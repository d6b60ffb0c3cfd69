use vstd::arithmetic::div_mod::{
    lemma_div_by_multiple, lemma_div_is_ordered_by_denominator, lemma_fundamental_div_mod_converse,
};
use vstd::arithmetic::mul::lemma_mul_upper_bound;
use vstd::arithmetic::power2::{lemma_pow2_pos, pow2};
use vstd::bits::lemma_u64_shr_is_div;
use vstd::prelude::*;

verus! {

/// Number of blocks in one halving epoch.
pub const EPOCH_BLOCKS: u64 = 210_000;

/// Subsidy of the very first block, in sats (50 coins).
pub const INITIAL_SUBSIDY: u64 = 5_000_000_000;

/// Largest height the subsidy formula is defined for: after 64 halvings the
/// shift used by the closed form would exceed the word size.
pub const MAX_SUBSIDY_HEIGHT: u64 = 13_440_000;

/// Mining reward of the block at `height`, in sats: the initial subsidy halved
/// once per completed halving epoch, rounding down.
pub open spec fn subsidy_spec(height: u64) -> nat {
    (INITIAL_SUBSIDY as nat) / pow2((height / EPOCH_BLOCKS) as nat)
}

/// Total sats created by the full epochs strictly before epoch `e`.
pub open spec fn supply_before_epoch(e: nat) -> nat
    decreases e,
{
    if e == 0 {
        0
    } else {
        supply_before_epoch((e - 1) as nat) + (EPOCH_BLOCKS as nat) * ((INITIAL_SUBSIDY as nat)
            / pow2((e - 1) as nat))
    }
}

/// Total sats in existence once the block at `height` has been mined: all
/// completed epochs plus every block of the current epoch up to `height`.
pub open spec fn block_supply_spec(height: u64) -> nat {
    supply_before_epoch((height / EPOCH_BLOCKS) as nat) + ((1 + height % EPOCH_BLOCKS) as nat)
        * subsidy_spec(height)
}

/// Block subsidy in sats: 50 coins, halved every 210000 blocks.
pub fn subsidy(height: u64) -> (r: u64)
    requires
        height < MAX_SUBSIDY_HEIGHT,
    ensures
        r as nat == subsidy_spec(height),
        r <= INITIAL_SUBSIDY,
{
    proof {
        lemma_u64_shr_is_div(INITIAL_SUBSIDY, (height / EPOCH_BLOCKS) as u64);
        lemma_pow2_pos((height / EPOCH_BLOCKS) as nat);
        lemma_div_is_ordered_by_denominator(
            INITIAL_SUBSIDY as int,
            1,
            pow2((height / EPOCH_BLOCKS) as nat) as int,
        );
    }
    50 * 100_000_000 >> (height / EPOCH_BLOCKS)
}

/// Total sats in existence once the block at `height` has been mined.
pub fn block_supply(height: u64) -> (r: u64)
    requires
        height < MAX_SUBSIDY_HEIGHT,
    ensures
        r as nat == block_supply_spec(height),
{
    let mut supply: u64 = 0;
    let mut i: u64 = 0;
    while height >= (i + 1) * EPOCH_BLOCKS
        invariant
            height < MAX_SUBSIDY_HEIGHT,
            i * EPOCH_BLOCKS <= height,
            i < 64,
            supply as nat == supply_before_epoch(i as nat),
            supply as nat <= (i as nat) * 1_050_000_000_000_000,
        decreases MAX_SUBSIDY_HEIGHT - i * EPOCH_BLOCKS,
    {
        let epoch_subsidy = subsidy(i * EPOCH_BLOCKS);
        proof {
            lemma_div_by_multiple(i as int, EPOCH_BLOCKS as int);
            assert(subsidy_spec((i * EPOCH_BLOCKS) as u64) == (INITIAL_SUBSIDY as nat) / pow2(
                i as nat,
            ));
            assert(supply_before_epoch((i + 1) as nat) == supply_before_epoch(i as nat) + (
            EPOCH_BLOCKS as nat) * ((INITIAL_SUBSIDY as nat) / pow2(i as nat)));
        }
        supply = supply + EPOCH_BLOCKS * epoch_subsidy;
        i = i + 1;
    }
    proof {
        assert(i == height / EPOCH_BLOCKS) by {
            lemma_div_of_range(height as int, i as int, EPOCH_BLOCKS as int);
        }
    }
    let tail = subsidy(height);
    proof {
        lemma_mul_upper_bound(
            (1 + height % EPOCH_BLOCKS) as int,
            EPOCH_BLOCKS as int,
            tail as int,
            INITIAL_SUBSIDY as int,
        );
    }
    supply + (1 + height % EPOCH_BLOCKS) * tail
}

/// Integer division pins down the quotient of any value inside one
/// multiple-range.
proof fn lemma_div_of_range(x: int, q: int, d: int)
    requires
        d > 0,
        q >= 0,
        q * d <= x,
        x < (q + 1) * d,
    ensures
        x / d == q,
{
    assert((q + 1) * d == q * d + d) by (nonlinear_arith);
    lemma_fundamental_div_mod_converse(x, d, q, x - q * d);
}

} // verus!
