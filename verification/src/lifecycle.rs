use vstd::prelude::*;
use crate::particle::{aged, FULL_LIFE, LIFE_DELTA};
use crate::particlesystem::survivors;

verus! {

/// The lifespan left after `n` updates of a particle that had `life`.
pub open spec fn aged_times(life: u8, n: nat) -> u8
    decreases n,
{
    if n == 0 {
        life
    } else {
        aged(aged_times(life, (n - 1) as nat))
    }
}

/// The lifespans that remain of `lives` after `n` runs of their system:
/// every particle has aged `n` times and only the living are left.
pub open spec fn survivors_after(lives: Seq<u8>, n: nat) -> Seq<u8> {
    lives.map_values(|l: u8| aged_times(l, n)).filter(|l: u8| l > 0)
}

/// `n` updates take `LIFE_DELTA` away from a lifespan `n` times, and a
/// lifespan never goes below zero.
pub proof fn lemma_aging(life: u8, n: nat)
    ensures
        aged_times(life, n) == if life >= LIFE_DELTA * n { life - LIFE_DELTA * n } else { 0 },
    decreases n,
{
    if n > 0 {
        lemma_aging(life, (n - 1) as nat);
    }
}

/// A particle is dead after `n` updates exactly when `n` steps of
/// `LIFE_DELTA` cover its lifespan; once dead it stays dead.
pub proof fn lemma_death(life: u8, n: nat)
    ensures
        (aged_times(life, n) == 0) <==> (LIFE_DELTA * n >= life),
        aged_times(life, n) == 0 ==> aged_times(life, n + 1) == 0,
{
    lemma_aging(life, n);
    lemma_aging(life, n + 1);
}

/// An update never adds lifespan, and takes some from every living particle.
pub proof fn lemma_update_shortens(life: u8)
    ensures
        aged(life) <= life,
        life > 0 ==> aged(life) < life,
{
}

proof fn lemma_survivors_step_push(lives: Seq<u8>, l: u8, n: nat)
    ensures
        survivors_after(lives.push(l), n) == if aged_times(l, n) > 0 {
            survivors_after(lives, n).push(aged_times(l, n))
        } else {
            survivors_after(lives, n)
        },
{
    let f = |x: u8| aged_times(x, n);
    assert(lives.push(l).map_values(f) =~= lives.map_values(f).push(aged_times(l, n)));
    lives.map_values(f).lemma_filter_push(aged_times(l, n), |x: u8| x > 0);
}

proof fn lemma_survivors_push(lives: Seq<u8>, l: u8)
    ensures
        survivors(lives.push(l)) == if aged(l) > 0 {
            survivors(lives).push(aged(l))
        } else {
            survivors(lives)
        },
{
    let f = |x: u8| aged(x);
    assert(lives.push(l).map_values(f) =~= lives.map_values(f).push(aged(l)));
    lives.map_values(f).lemma_filter_push(aged(l), |x: u8| x > 0);
}

/// Running a system once more after `n` runs is running it `n + 1` times:
/// the survivors of the survivors are the particles aged once more.
pub proof fn lemma_runs_compose(lives: Seq<u8>, n: nat)
    ensures
        survivors(survivors_after(lives, n)) == survivors_after(lives, n + 1),
    decreases lives.len(),
{
    if lives.len() == 0 {
        assert(survivors_after(lives, n) =~= Seq::<u8>::empty()) by {
            reveal(Seq::filter);
        }
        assert(survivors(Seq::<u8>::empty()) =~= Seq::<u8>::empty()) by {
            reveal(Seq::filter);
        }
        assert(survivors_after(lives, n + 1) =~= Seq::<u8>::empty()) by {
            reveal(Seq::filter);
        }
    } else {
        let init = lives.drop_last();
        let l = lives.last();
        assert(lives =~= init.push(l));
        lemma_runs_compose(init, n);
        lemma_survivors_step_push(init, l, n);
        lemma_survivors_step_push(init, l, n + 1);
        if aged_times(l, n) > 0 {
            lemma_survivors_push(survivors_after(init, n), aged_times(l, n));
        } else {
            assert(aged_times(l, n + 1) == 0);
        }
    }
}

/// A particle is created with `FULL_LIFE`; none outlives that many updates:
/// after `(FULL_LIFE + 1) / LIFE_DELTA` runs a system has no particle left.
pub proof fn lemma_systems_fade(lives: Seq<u8>)
    ensures
        survivors_after(lives, ((FULL_LIFE as nat + 1) / LIFE_DELTA as nat) as nat) == Seq::<u8>::empty(),
    decreases lives.len(),
{
    let n: nat = ((FULL_LIFE as nat + 1) / LIFE_DELTA as nat) as nat;
    if lives.len() == 0 {
        assert(survivors_after(lives, n) =~= Seq::<u8>::empty()) by {
            reveal(Seq::filter);
        }
    } else {
        let init = lives.drop_last();
        let l = lives.last();
        assert(lives =~= init.push(l));
        lemma_systems_fade(init);
        lemma_death(l, n);
        lemma_survivors_step_push(init, l, n);
    }
}

} // verus!
