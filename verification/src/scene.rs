use vstd::prelude::*;
use crate::particle::{aged, Body, Particle, FULL_LIFE, LIFE_DELTA};
use crate::particlesystem::{lifespans, survivors, system_ran, system_repelled, ParticleSystem, Repel};

verus! {

/// The number of particles in all the systems of `systems`.
pub open spec fn total_particles<B>(systems: Seq<ParticleSystem<B>>) -> nat
    decreases systems.len(),
{
    if systems.len() == 0 {
        0
    } else {
        total_particles(systems.drop_last()) + systems.last()@.len()
    }
}

/// The system holds at least one particle.
pub open spec fn non_empty<B>(ps: ParticleSystem<B>) -> bool {
    ps@.len() > 0
}

/// Running the systems of `old` one by one, in order, gives `ran`: each keeps
/// its world rectangle, and its lifespans are the survivors of its old ones.
pub open spec fn ran_each<B: Body>(old: Seq<ParticleSystem<B>>, ran: Seq<ParticleSystem<B>>) -> bool {
    &&& ran.len() == old.len()
    &&& forall|i: int|
        0 <= i < ran.len() ==> {
            &&& (#[trigger] ran[i]).spec_world_rect() == old[i].spec_world_rect()
            &&& lifespans(ran[i]@) == survivors(lifespans(old[i]@))
        }
}

/// One run of a scene takes its systems from `before` to `after`: every
/// system ran once, in order, and the ones left empty were swept away.
pub open spec fn scene_ran<B: Body>(before: Seq<ParticleSystem<B>>, after: Seq<ParticleSystem<B>>) -> bool {
    exists|ran: Seq<ParticleSystem<B>>|
        #![trigger ran_each(before, ran)]
        ran_each(before, ran) && after == ran.filter(|ps: ParticleSystem<B>| non_empty(ps))
}

/// `new` is the system `old` pushed away by every repeller of `rs`, one
/// after the other, in order.
pub open spec fn repelled_all<B: Body, R: Repel<B>>(old: ParticleSystem<B>, rs: Seq<R>, new: ParticleSystem<B>) -> bool
    decreases rs.len(),
{
    if rs.len() == 0 {
        new == old
    } else {
        exists|mid: ParticleSystem<B>|
            #![trigger system_repelled(mid, rs.last(), new)]
            repelled_all(old, rs.drop_last(), mid) && system_repelled(mid, rs.last(), new)
    }
}

/// No repeller leaves a system as it is, and pushing with one more
/// repeller `r` is pushing with the others first and then being pushed away
/// by `r`: every repeller of the sequence takes its turn, in order.
pub proof fn lemma_repelled_all_push<B: Body, R: Repel<B>>(
    old: ParticleSystem<B>,
    rs: Seq<R>,
    r: R,
    new: ParticleSystem<B>,
)
    ensures
        repelled_all(old, Seq::<R>::empty(), new) == (new == old),
        repelled_all(old, rs.push(r), new) == exists|mid: ParticleSystem<B>|
            repelled_all(old, rs, mid) && #[trigger] system_repelled(mid, r, new),
{
    assert(rs.push(r).drop_last() =~= rs);
    assert(rs.push(r).last() == r);
}

/// `new` is what one frame of the scene makes of the system `old`: the
/// system ran once, then every repeller of `rs` pushed it, in order.
pub open spec fn system_framed<B: Body, R: Repel<B>>(old: ParticleSystem<B>, rs: Seq<R>, new: ParticleSystem<B>) -> bool {
    exists|mid: ParticleSystem<B>|
        #![trigger system_ran(old, mid), repelled_all(mid, rs, new)]
        system_ran(old, mid) && repelled_all(mid, rs, new)
}

/// One frame of a scene with the repellers `rs` takes its systems from
/// `before` to `after`: every system ran once and was then pushed by every
/// repeller, in order, and the systems left empty were swept away; the
/// others keep their order.
pub open spec fn scene_framed<B: Body, R: Repel<B>>(
    before: Seq<ParticleSystem<B>>,
    rs: Seq<R>,
    after: Seq<ParticleSystem<B>>,
) -> bool {
    exists|ran: Seq<ParticleSystem<B>>|
        #![trigger ran_each(before, ran)]
        {
            &&& ran_each(before, ran)
            &&& forall|i: int| 0 <= i < ran.len() ==> system_framed(before[i], rs, #[trigger] ran[i])
            &&& after == ran.filter(|ps: ParticleSystem<B>| non_empty(ps))
        }
}

/// No particle of `systems` has a lifespan above `m`.
pub open spec fn lives_at_most<B>(systems: Seq<ParticleSystem<B>>, m: int) -> bool {
    forall|i: int, q: int|
        0 <= i < systems.len() && 0 <= q < systems[i]@.len() ==> #[trigger] systems[i]@[q].lifespan <= m
}

/// The repellers of `old` that `hit` does not mark, in order.
pub open spec fn unmarked<R>(old: Seq<R>, hit: Seq<bool>) -> Seq<R>
    decreases old.len(),
{
    if old.len() == 0 {
        old
    } else {
        let rest = unmarked(old.drop_last(), hit.drop_last());
        if hit.last() {
            rest
        } else {
            rest.push(old.last())
        }
    }
}

/// The number of `false` marks in `marks`.
pub open spec fn false_marks(marks: Seq<bool>) -> nat {
    marks.filter(|b: bool| !b).len()
}

/// Removing the marked repellers keeps exactly the repellers at unmarked
/// positions, in order: as many as there are unmarked positions, and the
/// repeller at an unmarked position `i` lands right after the unmarked ones
/// before it.
pub proof fn lemma_unmarked_keeps<R>(old: Seq<R>, hit: Seq<bool>)
    requires
        old.len() == hit.len(),
    ensures
        unmarked(old, hit).len() == false_marks(hit),
        forall|i: int|
            #![trigger old[i]]
            #![trigger hit[i]]
            0 <= i < old.len() && !hit[i] ==> {
                &&& false_marks(hit.take(i)) < unmarked(old, hit).len()
                &&& unmarked(old, hit)[false_marks(hit.take(i)) as int] == old[i]
            },
    decreases old.len(),
{
    if old.len() == 0 {
        assert(hit.filter(|b: bool| !b) =~= Seq::<bool>::empty()) by {
            reveal(Seq::filter);
        }
    } else {
        let n = old.len() - 1;
        let (o, h) = (old.drop_last(), hit.drop_last());
        lemma_unmarked_keeps(o, h);
        let rest = unmarked(o, h);
        assert(hit =~= h.push(hit.last()));
        h.lemma_filter_push(hit.last(), |b: bool| !b);
        assert(false_marks(hit) == false_marks(h) + if hit.last() { 0int } else { 1int });
        assert(unmarked(old, hit) == if hit.last() { rest } else { rest.push(old.last()) });
        assert forall|i: int|
            #![trigger old[i]]
            #![trigger hit[i]]
            0 <= i < old.len() && !hit[i] implies {
                &&& false_marks(hit.take(i)) < unmarked(old, hit).len()
                &&& unmarked(old, hit)[false_marks(hit.take(i)) as int] == old[i]
            } by {
            if i < n {
                assert(hit.take(i) =~= h.take(i));
                assert(h[i] == hit[i]);
                assert(o[i] == old[i]);
                let k = false_marks(h.take(i)) as int;
                assert(k < rest.len() && rest[k] == o[i]);
                assert(rest.len() <= unmarked(old, hit).len());
                assert(false_marks(hit.take(i)) < unmarked(old, hit).len());
            } else {
                assert(hit.take(i) =~= h);
                assert(!hit.last());
                assert(unmarked(old, hit) == rest.push(old.last()));
                assert(false_marks(h) == rest.len());
                assert(false_marks(hit.take(i)) < unmarked(old, hit).len());
            }
        }
    }
}

proof fn lemma_total_prefix<B>(s: Seq<ParticleSystem<B>>, i: int)
    requires
        0 <= i < s.len(),
    ensures
        total_particles(s.take(i + 1)) == total_particles(s.take(i)) + s[i]@.len(),
        total_particles(s.take(i)) <= total_particles(s),
    decreases s.len(),
{
    assert(s.take(i + 1).drop_last() =~= s.take(i));
    if i < s.len() - 1 {
        lemma_total_prefix(s.drop_last(), i);
        assert(s.drop_last().take(i) =~= s.take(i));
    } else {
        assert(s.take(i) =~= s.drop_last());
    }
}

/// Sweeping away the empty systems keeps the particle count.
proof fn lemma_total_filter<B>(s: Seq<ParticleSystem<B>>)
    ensures
        total_particles(s.filter(|ps: ParticleSystem<B>| non_empty(ps))) == total_particles(s),
    decreases s.len(),
{
    reveal(Seq::filter);
    if s.len() > 0 {
        lemma_total_filter(s.drop_last());
        let f = s.drop_last().filter(|ps: ParticleSystem<B>| non_empty(ps));
        assert(f.push(s.last()).drop_last() =~= f);
    }
}

/// Systems that were each run hold no more particles than before.
proof fn lemma_total_ran<B: Body>(old: Seq<ParticleSystem<B>>, ran: Seq<ParticleSystem<B>>)
    requires
        ran_each(old, ran),
    ensures
        total_particles(ran) <= total_particles(old),
    decreases old.len(),
{
    if old.len() > 0 {
        let n = old.len() - 1;
        assert(ran_each(old.drop_last(), ran.drop_last())) by {
            assert forall|i: int| 0 <= i < ran.drop_last().len() implies {
                &&& (#[trigger] ran.drop_last()[i]).spec_world_rect() == old.drop_last()[i].spec_world_rect()
                &&& lifespans(ran.drop_last()[i]@) == survivors(lifespans(old.drop_last()[i]@))
            } by {
                assert(ran[i] == ran.drop_last()[i]);
            }
        }
        lemma_total_ran(old.drop_last(), ran.drop_last());
        assert(ran[n] == ran.last());
        let ls = lifespans(old[n]@).map_values(|l: u8| aged(l));
        ls.lemma_filter_len(|l: u8| l > 0);
        assert(lifespans(ran[n]@).len() == ran[n]@.len());
        assert(lifespans(old[n]@).len() == old[n]@.len());
    }
}

/// A run takes `LIFE_DELTA` from the largest lifespan of a scene.
pub proof fn lemma_scene_run_ages<B: Body>(before: Seq<ParticleSystem<B>>, after: Seq<ParticleSystem<B>>, m: int)
    requires
        scene_ran(before, after),
        lives_at_most(before, m),
    ensures
        lives_at_most(after, m - LIFE_DELTA),
{
    let ran = choose|ran: Seq<ParticleSystem<B>>|
        #![trigger ran_each(before, ran)]
        ran_each(before, ran) && after == ran.filter(|ps: ParticleSystem<B>| non_empty(ps));
    assert forall|j: int, q: int|
        0 <= j < after.len() && 0 <= q < after[j]@.len() implies #[trigger] after[j]@[q].lifespan <= m - LIFE_DELTA by {
        assert(after.contains(after[j]));
        ran.lemma_filter_contains_rev(|ps: ParticleSystem<B>| non_empty(ps), after[j]);
        let i = choose|i: int| 0 <= i < ran.len() && ran[i] == after[j];
        let old_lives = lifespans(before[i]@);
        let aged_lives = old_lives.map_values(|l: u8| aged(l));
        let v = after[j]@[q].lifespan;
        assert(lifespans(after[j]@)[q] == v);
        assert(survivors(old_lives).contains(v));
        aged_lives.lemma_filter_contains_rev(|l: u8| l > 0, v);
        aged_lives.lemma_filter_pred(|l: u8| l > 0, survivors(old_lives).index_of(v));
        let k = choose|k: int| 0 <= k < aged_lives.len() && aged_lives[k] == v;
        assert(before[i]@[k].lifespan <= m);
        assert(old_lives[k] == before[i]@[k].lifespan);
    }
}

proof fn lemma_frames_age<B: Body>(frames: Seq<Seq<ParticleSystem<B>>>, k: int)
    requires
        0 <= k < frames.len(),
        forall|k: int| 0 <= k < frames.len() - 1 ==> #[trigger] scene_ran(frames[k], frames[k + 1]),
    ensures
        lives_at_most(frames[k], FULL_LIFE - LIFE_DELTA * k),
    decreases k,
{
    if k > 0 {
        lemma_frames_age(frames, k - 1);
        let j = k - 1;
        assert(scene_ran(frames[j], frames[j + 1]));
        lemma_scene_run_ages(frames[k - 1], frames[k], FULL_LIFE - LIFE_DELTA * (k - 1));
    }
}

/// After a run every particle left in the scene is alive.
pub proof fn lemma_scene_run_alive<B: Body>(before: Seq<ParticleSystem<B>>, after: Seq<ParticleSystem<B>>)
    requires
        scene_ran(before, after),
    ensures
        forall|j: int, q: int|
            0 <= j < after.len() && 0 <= q < after[j]@.len() ==> #[trigger] after[j]@[q].lifespan > 0,
{
    let ran = choose|ran: Seq<ParticleSystem<B>>|
        #![trigger ran_each(before, ran)]
        ran_each(before, ran) && after == ran.filter(|ps: ParticleSystem<B>| non_empty(ps));
    assert forall|j: int, q: int|
        0 <= j < after.len() && 0 <= q < after[j]@.len() implies #[trigger] after[j]@[q].lifespan > 0 by {
        assert(after.contains(after[j]));
        ran.lemma_filter_contains_rev(|ps: ParticleSystem<B>| non_empty(ps), after[j]);
        let i = choose|i: int| 0 <= i < ran.len() && ran[i] == after[j];
        let aged_lives = lifespans(before[i]@).map_values(|l: u8| aged(l));
        assert(lifespans(after[j]@)[q] == after[j]@[q].lifespan);
        aged_lives.lemma_filter_pred(|l: u8| l > 0, q);
    }
}

/// With no particle added, a scene is empty once every particle has had
/// time to die: after `(FULL_LIFE + 1) / LIFE_DELTA` runs no system is left.
pub proof fn lemma_scene_fades<B: Body>(frames: Seq<Seq<ParticleSystem<B>>>)
    requires
        frames.len() == (FULL_LIFE as int + 1) / LIFE_DELTA as int + 1,
        forall|k: int| 0 <= k < frames.len() - 1 ==> #[trigger] scene_ran(frames[k], frames[k + 1]),
    ensures
        frames.last().len() == 0,
{
    let n = frames.len() - 1;
    lemma_frames_age(frames, n);
    let last = frames[n];
    let j = n - 1;
    assert(scene_ran(frames[j], frames[j + 1]));
    if last.len() > 0 {
        let ran = choose|ran: Seq<ParticleSystem<B>>|
            #![trigger ran_each(frames[n - 1], ran)]
            ran_each(frames[n - 1], ran) && last == ran.filter(|ps: ParticleSystem<B>| non_empty(ps));
        ran.lemma_filter_pred(|ps: ParticleSystem<B>| non_empty(ps), 0);
        assert(last[0]@[0].lifespan <= FULL_LIFE - LIFE_DELTA * n);
    }
}

/// The particle systems of a simulation and the repellers that push their
/// particles around.
pub struct Scene<B, R> {
    pub psystems: Vec<ParticleSystem<B>>,
    pub repellers: Vec<R>,
}

impl<B: Body, R: Repel<B>> Scene<B, R> {
    /// A scene with no particle system and no repeller.
    pub fn new() -> (s: Self)
        ensures
            s.psystems@ == Seq::<ParticleSystem<B>>::empty(),
            s.repellers@ == Seq::<R>::empty(),
    {
        Scene { psystems: Vec::new(), repellers: Vec::new() }
    }

    /// The number of particles in all the systems of the scene.
    pub fn nparticles(&self) -> (n: usize)
        requires
            total_particles(self.psystems@) <= usize::MAX,
        ensures
            n == total_particles(self.psystems@),
    {
        let mut n: usize = 0;
        for i in 0..self.psystems.len()
            invariant
                total_particles(self.psystems@) <= usize::MAX,
                n == total_particles(self.psystems@.take(i as int)),
        {
            proof {
                lemma_total_prefix(self.psystems@, i as int);
                if i + 1 < self.psystems@.len() {
                    lemma_total_prefix(self.psystems@, i + 1);
                } else {
                    assert(self.psystems@.take(i + 1) =~= self.psystems@);
                }
            }
            n = n + self.psystems[i].len();
        }
        assert(self.psystems@.take(self.psystems@.len() as int) =~= self.psystems@);
        n
    }

    /// The particle system at position `i`.
    pub fn index(&self, i: usize) -> (ps: &ParticleSystem<B>)
        requires
            i < self.psystems@.len(),
        ensures
            *ps == self.psystems@[i as int],
    {
        &self.psystems[i]
    }

    /// Adds a copy of `p` to the last particle system, if there is one, and
    /// says whether there was.
    pub fn add_particle_to_last(&mut self, p: &Particle<B>) -> (added: bool)
        ensures
            added == (old(self).psystems@.len() > 0),
            final(self).repellers@ == old(self).repellers@,
            final(self).psystems@.len() == old(self).psystems@.len(),
            added ==> {
                let last = old(self).psystems@.len() - 1;
                &&& final(self).psystems@[last]@ == old(self).psystems@[last]@.push(*p)
                &&& final(self).psystems@[last].spec_world_rect() == old(self).psystems@[last].spec_world_rect()
                &&& forall|i: int| 0 <= i < last ==> #[trigger] final(self).psystems@[i] == old(self).psystems@[i]
            },
            !added ==> final(self).psystems@ == old(self).psystems@,
    {
        let n = self.psystems.len();
        if n == 0 {
            false
        } else {
            self.psystems[n - 1].add_particle(p);
            true
        }
    }

    /// Removes the repellers that `hit` marks; the others keep their order.
    pub fn remove_repellers(&mut self, hit: &Vec<bool>)
        requires
            hit@.len() == old(self).repellers@.len(),
        ensures
            final(self).repellers@ == unmarked(old(self).repellers@, hit@),
            final(self).repellers@.len() == false_marks(hit@),
            forall|i: int|
                0 <= i < hit@.len() && !hit@[i] ==> final(self).repellers@[
                    false_marks(hit@.take(i)) as int] == #[trigger] old(self).repellers@[i],
            final(self).psystems@ == old(self).psystems@,
    {
        proof {
            lemma_unmarked_keeps(old(self).repellers@, hit@);
        }
        let mut all: Vec<R> = Vec::new();
        std::mem::swap(&mut all, &mut self.repellers);
        let ghost start = all@;
        let mut kept: Vec<R> = Vec::new();
        let mut i: usize = 0;
        let n = hit.len();
        for r in it: all.into_iter()
            invariant
                it.seq() == start,
                n == hit@.len(),
                i == it.index(),
                hit@.len() == start.len(),
                kept@ == unmarked(start.take(i as int), hit@.take(i as int)),
        {
            proof {
                assert(start.take(i + 1).drop_last() =~= start.take(i as int));
                assert(hit@.take(i + 1).drop_last() =~= hit@.take(i as int));
            }
            if !hit[i] {
                kept.push(r);
            }
            i = i + 1;
        }
        proof {
            assert(start.take(start.len() as int) =~= start);
            assert(hit@.take(hit@.len() as int) =~= hit@);
        }
        self.repellers = kept;
    }

    /// One frame of the scene: every system runs, then every repeller pushes
    /// its particles; systems left with no particle are swept away and the
    /// others keep their order.
    pub fn run(&mut self)
        ensures
            final(self).repellers@ == old(self).repellers@,
            scene_framed(old(self).psystems@, old(self).repellers@, final(self).psystems@),
            scene_ran(old(self).psystems@, final(self).psystems@),
            forall|i: int| 0 <= i < final(self).psystems@.len() ==> non_empty(#[trigger] final(self).psystems@[i]),
            lives_at_most(final(self).psystems@, FULL_LIFE - LIFE_DELTA),
            forall|i: int, q: int|
                0 <= i < final(self).psystems@.len() && 0 <= q < final(self).psystems@[i]@.len()
                    ==> #[trigger] final(self).psystems@[i]@[q].lifespan > 0,
            total_particles(final(self).psystems@) <= total_particles(old(self).psystems@),
    {
        let ghost start = self.psystems@;
        let n = self.psystems.len();
        for i in 0..n
            invariant
                n == start.len(),
                self.psystems@.len() == n,
                self.repellers@ == old(self).repellers@,
                forall|j: int| 0 <= j < i ==> {
                    &&& (#[trigger] self.psystems@[j]).spec_world_rect() == start[j].spec_world_rect()
                    &&& lifespans(self.psystems@[j]@) == survivors(lifespans(start[j]@))
                    &&& system_framed(start[j], self.repellers@, self.psystems@[j])
                },
                forall|j: int| i <= j < n ==> #[trigger] self.psystems@[j] == start[j],
        {
            self.psystems[i].run();
            let ghost mid = self.psystems@[i as int];
            let m = self.repellers.len();
            for k in 0..m
                invariant
                    n == start.len(),
                    i < n,
                    self.psystems@.len() == n,
                    self.repellers@ == old(self).repellers@,
                    m == self.repellers@.len(),
                    self.psystems@[i as int].spec_world_rect() == start[i as int].spec_world_rect(),
                    lifespans(self.psystems@[i as int]@) == survivors(lifespans(start[i as int]@)),
                    system_ran(start[i as int], mid),
                    repelled_all(mid, self.repellers@.take(k as int), self.psystems@[i as int]),
                    forall|j: int| 0 <= j < i ==> {
                        &&& (#[trigger] self.psystems@[j]).spec_world_rect() == start[j].spec_world_rect()
                        &&& lifespans(self.psystems@[j]@) == survivors(lifespans(start[j]@))
                        &&& system_framed(start[j], self.repellers@, self.psystems@[j])
                    },
                    forall|j: int| i < j < n ==> #[trigger] self.psystems@[j] == start[j],
            {
                let ghost prev = self.psystems@[i as int];
                self.psystems[i].apply_repeller(&self.repellers[k]);
                proof {
                    let rs = self.repellers@.take(k + 1);
                    assert(rs.drop_last() =~= self.repellers@.take(k as int));
                    assert(rs.last() == self.repellers@[k as int]);
                    assert(repelled_all(mid, rs.drop_last(), prev)
                        && system_repelled(prev, rs.last(), self.psystems@[i as int]));
                }
            }
            proof {
                assert(self.repellers@.take(m as int) =~= self.repellers@);
                assert(system_ran(start[i as int], mid)
                    && repelled_all(mid, self.repellers@, self.psystems@[i as int]));
            }
        }
        let ghost ran = self.psystems@;
        assert(ran_each(start, ran));
        let mut systems: Vec<ParticleSystem<B>> = Vec::new();
        std::mem::swap(&mut systems, &mut self.psystems);
        let mut kept: Vec<ParticleSystem<B>> = Vec::new();
        for ps in it: systems.into_iter()
            invariant
                it.seq() == ran,
                kept@ == ran.take(it.index()).filter(|ps: ParticleSystem<B>| non_empty(ps)),
        {
            proof {
                assert(ran.take(it.index() + 1) =~= ran.take(it.index()).push(ps));
                ran.take(it.index()).lemma_filter_push(ps, |ps: ParticleSystem<B>| non_empty(ps));
            }
            if ps.len() > 0 {
                kept.push(ps);
            }
        }
        proof {
            assert(ran.take(ran.len() as int) =~= ran);
            assert forall|i: int| 0 <= i < kept@.len() implies non_empty(#[trigger] kept@[i]) by {
                ran.lemma_filter_pred(|ps: ParticleSystem<B>| non_empty(ps), i);
            }
            lemma_total_filter(ran);
            lemma_total_ran(start, ran);
        }
        self.psystems = kept;
        assert(ran_each(old(self).psystems@, ran)
            && self.psystems@ == ran.filter(|ps: ParticleSystem<B>| non_empty(ps)));
        assert(forall|i: int| 0 <= i < ran.len() ==> system_framed(start[i], old(self).repellers@, #[trigger] ran[i]));
        proof {
            lemma_scene_run_ages(old(self).psystems@, self.psystems@, FULL_LIFE as int);
            lemma_scene_run_alive(old(self).psystems@, self.psystems@);
        }
    }
}

} // verus!
