use vstd::prelude::*;
use crate::line::SCALE_ONE;

verus! {

/// Below this scale a folding line snaps shut; within it of a full scale an
/// unfolding line snaps open (a thousandth of a full scale).
pub const SNAP_THRESHOLD: u64 = 1000;

/// One step of folding: the scale shrinks by a tenth, and snaps to zero once it is
/// below the threshold.
pub open spec fn fold_step(s: u64) -> u64 {
    let n = (s as int * 9 / 10) as u64;
    if n < SNAP_THRESHOLD { 0 } else { n }
}

/// One step of unfolding: what is missing from a full scale shrinks by a tenth, and
/// the scale snaps to a full one once it is within the threshold of it.
pub open spec fn unfold_step(s: u64) -> u64 {
    let n = (SCALE_ONE - (SCALE_ONE - s) * 9 / 10) as u64;
    if n > SCALE_ONE - SNAP_THRESHOLD { SCALE_ONE } else { n }
}

/// The scale after `k` folding steps.
pub open spec fn fold_steps(s: u64, k: nat) -> u64
    decreases k,
{
    if k == 0 { s } else { fold_step(fold_steps(s, (k - 1) as nat)) }
}

/// The scale after `k` unfolding steps.
pub open spec fn unfold_steps(s: u64, k: nat) -> u64
    decreases k,
{
    if k == 0 { s } else { unfold_step(unfold_steps(s, (k - 1) as nat)) }
}

pub fn fold_step_exec(s: u64) -> (r: u64)
    requires
        s <= SCALE_ONE,
    ensures
        r == fold_step(s),
        r <= s,
{
    let n = s * 9 / 10;
    if n < SNAP_THRESHOLD { 0 } else { n }
}

pub fn unfold_step_exec(s: u64) -> (r: u64)
    requires
        s <= SCALE_ONE,
    ensures
        r == unfold_step(s),
        s <= r <= SCALE_ONE,
{
    let n = SCALE_ONE - (SCALE_ONE - s) * 9 / 10;
    if n > SCALE_ONE - SNAP_THRESHOLD { SCALE_ONE } else { n }
}

proof fn lemma_fold_step_monotone(s: u64, t: u64)
    requires
        s <= t <= SCALE_ONE,
    ensures
        fold_step(s) <= fold_step(t),
{
    assert(s as int * 9 / 10 <= t as int * 9 / 10) by (nonlinear_arith)
        requires s <= t;
}

proof fn lemma_fold_steps_monotone(s: u64, t: u64, k: nat)
    requires
        s <= t <= SCALE_ONE,
    ensures
        fold_steps(s, k) <= fold_steps(t, k) <= SCALE_ONE,
    decreases k,
{
    if k > 0 {
        lemma_fold_steps_monotone(s, t, (k - 1) as nat);
        lemma_fold_step_monotone(fold_steps(s, (k - 1) as nat), fold_steps(t, (k - 1) as nat));
    }
}

proof fn lemma_unfold_mirrors_fold(s: u64, k: nat)
    requires
        s <= SCALE_ONE,
    ensures
        unfold_steps(s, k) <= SCALE_ONE,
        SCALE_ONE - unfold_steps(s, k) == fold_steps((SCALE_ONE - s) as u64, k),
    decreases k,
{
    if k > 0 {
        lemma_unfold_mirrors_fold(s, (k - 1) as nat);
    }
}

proof fn lemma_full_scale_folds_in_66_steps()
    ensures
        fold_steps(SCALE_ONE, 66) == 0,
{
    assert(fold_steps(SCALE_ONE, 0) == SCALE_ONE);
    assert(fold_steps(SCALE_ONE, 1) == 900000);
    assert(fold_steps(SCALE_ONE, 2) == 810000);
    assert(fold_steps(SCALE_ONE, 3) == 729000);
    assert(fold_steps(SCALE_ONE, 4) == 656100);
    assert(fold_steps(SCALE_ONE, 5) == 590490);
    assert(fold_steps(SCALE_ONE, 6) == 531441);
    assert(fold_steps(SCALE_ONE, 7) == 478296);
    assert(fold_steps(SCALE_ONE, 8) == 430466);
    assert(fold_steps(SCALE_ONE, 9) == 387419);
    assert(fold_steps(SCALE_ONE, 10) == 348677);
    assert(fold_steps(SCALE_ONE, 11) == 313809);
    assert(fold_steps(SCALE_ONE, 12) == 282428);
    assert(fold_steps(SCALE_ONE, 13) == 254185);
    assert(fold_steps(SCALE_ONE, 14) == 228766);
    assert(fold_steps(SCALE_ONE, 15) == 205889);
    assert(fold_steps(SCALE_ONE, 16) == 185300);
    assert(fold_steps(SCALE_ONE, 17) == 166770);
    assert(fold_steps(SCALE_ONE, 18) == 150093);
    assert(fold_steps(SCALE_ONE, 19) == 135083);
    assert(fold_steps(SCALE_ONE, 20) == 121574);
    assert(fold_steps(SCALE_ONE, 21) == 109416);
    assert(fold_steps(SCALE_ONE, 22) == 98474);
    assert(fold_steps(SCALE_ONE, 23) == 88626);
    assert(fold_steps(SCALE_ONE, 24) == 79763);
    assert(fold_steps(SCALE_ONE, 25) == 71786);
    assert(fold_steps(SCALE_ONE, 26) == 64607);
    assert(fold_steps(SCALE_ONE, 27) == 58146);
    assert(fold_steps(SCALE_ONE, 28) == 52331);
    assert(fold_steps(SCALE_ONE, 29) == 47097);
    assert(fold_steps(SCALE_ONE, 30) == 42387);
    assert(fold_steps(SCALE_ONE, 31) == 38148);
    assert(fold_steps(SCALE_ONE, 32) == 34333);
    assert(fold_steps(SCALE_ONE, 33) == 30899);
    assert(fold_steps(SCALE_ONE, 34) == 27809);
    assert(fold_steps(SCALE_ONE, 35) == 25028);
    assert(fold_steps(SCALE_ONE, 36) == 22525);
    assert(fold_steps(SCALE_ONE, 37) == 20272);
    assert(fold_steps(SCALE_ONE, 38) == 18244);
    assert(fold_steps(SCALE_ONE, 39) == 16419);
    assert(fold_steps(SCALE_ONE, 40) == 14777);
    assert(fold_steps(SCALE_ONE, 41) == 13299);
    assert(fold_steps(SCALE_ONE, 42) == 11969);
    assert(fold_steps(SCALE_ONE, 43) == 10772);
    assert(fold_steps(SCALE_ONE, 44) == 9694);
    assert(fold_steps(SCALE_ONE, 45) == 8724);
    assert(fold_steps(SCALE_ONE, 46) == 7851);
    assert(fold_steps(SCALE_ONE, 47) == 7065);
    assert(fold_steps(SCALE_ONE, 48) == 6358);
    assert(fold_steps(SCALE_ONE, 49) == 5722);
    assert(fold_steps(SCALE_ONE, 50) == 5149);
    assert(fold_steps(SCALE_ONE, 51) == 4634);
    assert(fold_steps(SCALE_ONE, 52) == 4170);
    assert(fold_steps(SCALE_ONE, 53) == 3753);
    assert(fold_steps(SCALE_ONE, 54) == 3377);
    assert(fold_steps(SCALE_ONE, 55) == 3039);
    assert(fold_steps(SCALE_ONE, 56) == 2735);
    assert(fold_steps(SCALE_ONE, 57) == 2461);
    assert(fold_steps(SCALE_ONE, 58) == 2214);
    assert(fold_steps(SCALE_ONE, 59) == 1992);
    assert(fold_steps(SCALE_ONE, 60) == 1792);
    assert(fold_steps(SCALE_ONE, 61) == 1612);
    assert(fold_steps(SCALE_ONE, 62) == 1450);
    assert(fold_steps(SCALE_ONE, 63) == 1305);
    assert(fold_steps(SCALE_ONE, 64) == 1174);
    assert(fold_steps(SCALE_ONE, 65) == 1056);
    assert(fold_steps(SCALE_ONE, 66) == 0);
}

/// Folding a line from any scale reaches exactly zero within 66 steps, and
/// unfolding one reaches exactly a full scale within 66 steps.
pub proof fn lemma_fold_convergence(s: u64)
    requires
        s <= SCALE_ONE,
    ensures
        fold_steps(s, 66) == 0,
        unfold_steps(s, 66) == SCALE_ONE,
{
    lemma_full_scale_folds_in_66_steps();
    lemma_fold_steps_monotone(s, SCALE_ONE, 66);
    lemma_fold_steps_monotone((SCALE_ONE - s) as u64, SCALE_ONE, 66);
    lemma_unfold_mirrors_fold(s, 66);
}

} // verus!
