//! Ranks, the frecency score and the aging rule.
//!
//! Ranks are fixed-point numbers: `UNIT` units make a rank of 1.0, so a
//! rank is exact to one millionth. The score of an entry is
//! `3.75 * rank / (0.0001 * age + 1.25)`, which equals
//! `37500 * rank / (age + 12500)`; only its order matters, so scores are
//! compared by cross-multiplication and never divided out.
use vstd::prelude::*;

verus! {

/// Rank units in a rank of 1.0; one visit adds this much.
pub const UNIT: u64 = 1_000_000;

/// The largest rank the store holds (2^60 units).
pub const MAX_RANK: u64 = 1_152_921_504_606_846_976;

/// Aging runs when the ranks sum to at least 9000.0.
pub const AGING_THRESHOLD: u64 = 9_000_000_000;

/// Aging multiplies every rank by `DECAY_NUM / DECAY_DEN` = 0.99.
pub const DECAY_NUM: u64 = 99;

pub const DECAY_DEN: u64 = 100;

/// Offset of the score's denominator: `(1 + 0.25) / 0.0001`.
pub const AGE_OFFSET: u64 = 12_500;

/// A rank after one aging pass, rounded down to whole units.
pub open spec fn decayed(rank: nat) -> nat {
    ((rank * DECAY_NUM) as int / DECAY_DEN as int) as nat
}

/// Seconds since the last access; a time in the future counts as now.
pub open spec fn age(time: int, now: int) -> nat {
    if now >= time {
        (now - time) as nat
    } else {
        0
    }
}

/// Whether `score(r1, a1)` is strictly above `score(r2, a2)`, where
/// `score(r, a) = 37500 * r / (a + 12500)`.
pub open spec fn outscores(r1: nat, a1: nat, r2: nat, a2: nat) -> bool {
    r1 * (a2 + AGE_OFFSET) > r2 * (a1 + AGE_OFFSET)
}

/// Applies one aging pass to a rank.
pub fn decay(rank: u64) -> (r: u64)
    ensures
        r == decayed(rank as nat),
        r <= rank,
{
    let r = (rank as u128 * DECAY_NUM as u128 / DECAY_DEN as u128) as u64;
    r
}

/// Seconds from `time` to `now`, or 0 when `time` is later than `now`.
pub fn age_of(time: i64, now: i64) -> (r: u64)
    ensures
        r == age(time as int, now as int),
{
    if now >= time {
        (now as i128 - time as i128) as u64
    } else {
        0
    }
}

/// Whether an entry of rank `rank_a` last seen at `time_a` scores strictly
/// higher at `now` than one of rank `rank_b` last seen at `time_b`.
pub fn outranks(rank_a: u64, time_a: i64, rank_b: u64, time_b: i64, now: i64) -> (r: bool)
    requires
        rank_a <= MAX_RANK,
        rank_b <= MAX_RANK,
    ensures
        r == outscores(
            rank_a as nat,
            age(time_a as int, now as int),
            rank_b as nat,
            age(time_b as int, now as int),
        ),
{
    let age_a = age_of(time_a, now) as u128 + AGE_OFFSET as u128;
    let age_b = age_of(time_b, now) as u128 + AGE_OFFSET as u128;
    proof {
        assert(rank_a as u128 * age_b <= (MAX_RANK as u128) * 0x2_0000_0000_0000_0000u128)
            by (nonlinear_arith)
            requires
                rank_a <= MAX_RANK,
                age_b <= 0x2_0000_0000_0000_0000u128,
        ;
        assert(rank_b as u128 * age_a <= (MAX_RANK as u128) * 0x2_0000_0000_0000_0000u128)
            by (nonlinear_arith)
            requires
                rank_b <= MAX_RANK,
                age_a <= 0x2_0000_0000_0000_0000u128,
        ;
    }
    rank_a as u128 * age_b > rank_b as u128 * age_a
}

/// The score falls strictly as an entry ages, for any positive rank.
pub proof fn lemma_score_falls_with_age(rank: nat, age1: nat, age2: nat)
    requires
        rank > 0,
        age1 < age2,
    ensures
        outscores(rank, age1, rank, age2),
{
    assert(rank * (age2 + AGE_OFFSET) > rank * (age1 + AGE_OFFSET)) by (nonlinear_arith)
        requires
            rank > 0,
            age1 < age2,
    ;
}

/// At a fixed age the score rises strictly with the rank.
pub proof fn lemma_score_rises_with_rank(rank1: nat, rank2: nat, a: nat)
    requires
        rank1 < rank2,
    ensures
        outscores(rank2, a, rank1, a),
{
    assert(rank2 * (a + AGE_OFFSET) > rank1 * (a + AGE_OFFSET)) by (nonlinear_arith)
        requires
            rank1 < rank2,
    ;
}

/// Scores are ordered: one above `y` is above every `z` not above `y`.
pub proof fn lemma_outscores_past(rx: nat, ax: nat, ry: nat, ay: nat, rz: nat, az: nat)
    requires
        outscores(rx, ax, ry, ay),
        !outscores(rz, az, ry, ay),
    ensures
        outscores(rx, ax, rz, az),
{
    let kx = ax + AGE_OFFSET;
    let ky = ay + AGE_OFFSET;
    let kz = az + AGE_OFFSET;
    assert(rx * ky * kz > ry * kx * kz) by (nonlinear_arith)
        requires
            rx * ky > ry * kx,
            kz > 0,
    ;
    assert(rz * ky * kx <= ry * kz * kx) by (nonlinear_arith)
        requires
            rz * ky <= ry * kz,
            kx > 0,
    ;
    assert(ry * kx * kz == ry * kz * kx) by (nonlinear_arith);
    assert(rx * kz * ky > rz * kx * ky) by (nonlinear_arith)
        requires
            rx * ky * kz > rz * ky * kx,
    ;
    assert(rx * kz > rz * kx) by (nonlinear_arith)
        requires
            rx * kz * ky > rz * kx * ky,
            ky > 0,
    ;
}

/// No two scores are each above the other.
pub proof fn lemma_outscores_asymmetric(rx: nat, ax: nat, ry: nat, ay: nat)
    requires
        outscores(rx, ax, ry, ay),
    ensures
        !outscores(ry, ay, rx, ax),
{
}

} // verus!
