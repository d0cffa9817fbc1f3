use vstd::prelude::*;
use egui::Rect;
use crate::particle::{aged, gravity_force, integrated_by, particle_ran, pushed_by, Body, Particle};

verus! {

/// The rectangle of the world that a particle system lives in.
#[verifier::external_type_specification]
#[verifier::external_body]
pub struct ExRect(egui::Rect);

/// The lifespans of a sequence of particles, in order.
pub open spec fn lifespans<B>(ps: Seq<Particle<B>>) -> Seq<u8> {
    ps.map_values(|p: Particle<B>| p.lifespan)
}

/// The particle is alive: its lifespan has not run out.
pub open spec fn alive<B>(p: Particle<B>) -> bool {
    p.lifespan > 0
}

/// The lifespans that remain after every particle has aged once and the dead
/// ones have been swept away.
pub open spec fn survivors(lives: Seq<u8>) -> Seq<u8> {
    lives.map_values(|l: u8| aged(l)).filter(|l: u8| l > 0)
}

/// Something that pushes bodies away from itself.
pub trait Repel<B: Body> {
    /// The force with which `body` is pushed.
    fn repel(&self, body: &B) -> B::Force;
}

/// `new` is what pushing `old` with a force with which `r` repels `old`
/// can give.
pub open spec fn repelled_by<B: Body, R: Repel<B>>(r: R, old: B, new: B) -> bool {
    exists|force: B::Force|
        #![trigger pushed_by(old, force, new)]
        call_ensures(R::repel, (&r, &old), force) && pushed_by(old, force, new)
}

/// `new` is the system `old` with a copy of `p` added at the end.
pub open spec fn particle_added<B>(old: ParticleSystem<B>, p: Particle<B>, new: ParticleSystem<B>) -> bool {
    &&& new.spec_world_rect() == old.spec_world_rect()
    &&& new@ == old@.push(p)
}

/// `new` is the system `old` with every particle pushed by `force`;
/// lifespans, order and world rectangle are kept.
pub open spec fn system_pushed<B: Body>(old: ParticleSystem<B>, force: B::Force, new: ParticleSystem<B>) -> bool {
    &&& new.spec_world_rect() == old.spec_world_rect()
    &&& new@.len() == old@.len()
    &&& lifespans(new@) == lifespans(old@)
    &&& forall|i: int| 0 <= i < old@.len() ==> pushed_by(old@[i].body, force, #[trigger] new@[i].body)
}

/// `new` is what one of the system's operations makes of `old`: a run,
/// adding a particle, pushing every particle with a force, or pushing them
/// away with a repeller of type `R`.
pub open spec fn system_step<B: Body, R: Repel<B>>(old: ParticleSystem<B>, new: ParticleSystem<B>) -> bool {
    ||| system_ran(old, new)
    ||| exists|p: Particle<B>| #[trigger] particle_added(old, p, new)
    ||| exists|force: B::Force| #[trigger] system_pushed(old, force, new)
    ||| exists|r: R| #[trigger] system_repelled(old, r, new)
}

/// A particle system keeps the world rectangle it was built with through any
/// sequence of runs, additions, forces and repellers.
pub proof fn lemma_world_rect_kept<B: Body, R: Repel<B>>(states: Seq<ParticleSystem<B>>)
    requires
        forall|k: int| 0 <= k < states.len() - 1 ==> #[trigger] system_step::<B, R>(states[k], states[k + 1]),
    ensures
        forall|k: int| 0 <= k < states.len() ==> (#[trigger] states[k]).spec_world_rect() == states[0].spec_world_rect(),
    decreases states.len(),
{
    if states.len() > 1 {
        let init = states.drop_last();
        assert forall|k: int| 0 <= k < init.len() - 1 implies #[trigger] system_step::<B, R>(init[k], init[k + 1]) by {
            assert(system_step::<B, R>(states[k], states[k + 1]));
        }
        lemma_world_rect_kept::<B, R>(init);
        let j = states.len() - 2;
        assert(system_step::<B, R>(states[j], states[j + 1]));
        assert(init[j] == states[j]);
        assert(init[0] == states[0]);
        assert forall|k: int| 0 <= k < states.len() implies (#[trigger] states[k]).spec_world_rect() == states[0].spec_world_rect() by {
            if k < states.len() - 1 {
                assert(init[k] == states[k]);
            }
        }
    }
}

/// Being repelled by `r` is being pushed by the very force that `r` exerts
/// on the body itself, not on any other body.
pub proof fn lemma_repelled_by_own_force<B: Body, R: Repel<B>>(r: R, old: B, new: B)
    ensures
        repelled_by(r, old, new) == exists|force: B::Force|
            #[trigger] call_ensures(R::repel, (&r, &old), force)
                && call_ensures(B::pushed, (&old, force), new),
{
    if repelled_by(r, old, new) {
        let force = choose|force: B::Force|
            #![trigger pushed_by(old, force, new)]
            call_ensures(R::repel, (&r, &old), force) && pushed_by(old, force, new);
        assert(call_ensures(R::repel, (&r, &old), force) && call_ensures(B::pushed, (&old, force), new));
    }
    if exists|force: B::Force|
        #[trigger] call_ensures(R::repel, (&r, &old), force) && call_ensures(B::pushed, (&old, force), new)
    {
        let force = choose|force: B::Force|
            #[trigger] call_ensures(R::repel, (&r, &old), force) && call_ensures(B::pushed, (&old, force), new);
        assert(pushed_by(old, force, new));
    }
}

/// The particles of `s` whose lifespan has not run out, in order.
pub open spec fn living<B>(s: Seq<Particle<B>>) -> Seq<Particle<B>> {
    s.filter(|p: Particle<B>| p.lifespan > 0)
}

/// One run of a system: every particle, at its own position, ages by
/// `LIFE_DELTA` (down to zero) and its body makes one step of motion and is
/// then pushed by gravity; the particles whose lifespan is then zero are
/// swept away, the others keep their order, and the world rectangle is kept.
pub proof fn lemma_system_run_law<B: Body>(old: ParticleSystem<B>, new: ParticleSystem<B>)
    requires
        system_ran(old, new),
    ensures
        new.spec_world_rect() == old.spec_world_rect(),
        exists|ran: Seq<Particle<B>>|
            #![trigger living(ran)]
            {
                &&& ran.len() == old@.len()
                &&& forall|i: int|
                    #![trigger ran[i]]
                    0 <= i < ran.len() ==> {
                        &&& ran[i].lifespan == if old@[i].lifespan >= 2 { old@[i].lifespan - 2 } else { 0 }
                        &&& exists|mid: B, g: B::Force|
                            #![trigger call_ensures(B::integrated, (&old@[i].body,), mid), call_ensures(B::pushed, (&mid, g), ran[i].body)]
                            call_ensures(B::integrated, (&old@[i].body,), mid)
                                && call_ensures(B::gravity, (), g)
                                && call_ensures(B::pushed, (&mid, g), ran[i].body)
                    }
                &&& new@ == living(ran)
            },
{
    let ran = choose|ran: Seq<Particle<B>>|
        #![trigger each_ran(old@, ran)]
        each_ran(old@, ran) && new@ == ran.filter(|p: Particle<B>| alive(p));
    assert forall|i: int| #![trigger ran[i]] 0 <= i < ran.len() implies {
        &&& ran[i].lifespan == if old@[i].lifespan >= 2 { old@[i].lifespan - 2 } else { 0 }
        &&& exists|mid: B, g: B::Force|
            #![trigger call_ensures(B::integrated, (&old@[i].body,), mid), call_ensures(B::pushed, (&mid, g), ran[i].body)]
            call_ensures(B::integrated, (&old@[i].body,), mid)
                && call_ensures(B::gravity, (), g)
                && call_ensures(B::pushed, (&mid, g), ran[i].body)
    } by {
        assert(particle_ran(old@[i], ran[i]));
        let (mid, g) = choose|mid: B, g: B::Force|
            #![trigger integrated_by(old@[i].body, mid), pushed_by(mid, g, ran[i].body)]
            integrated_by(old@[i].body, mid) && gravity_force::<B>(g) && pushed_by(mid, g, ran[i].body);
        assert(call_ensures(B::integrated, (&old@[i].body,), mid)
            && call_ensures(B::gravity, (), g)
            && call_ensures(B::pushed, (&mid, g), ran[i].body));
    }
    assert((|p: Particle<B>| alive(p)) =~= (|p: Particle<B>| p.lifespan > 0));
    assert(new@ == living(ran));
}

/// A set of particles that live in a world rectangle.
pub struct ParticleSystem<B> {
    particles: Vec<Particle<B>>,
    world_rect: Rect,
}

impl<B: Copy> Clone for ParticleSystem<B> {
    fn clone(&self) -> (c: Self)
        ensures
            c@ == self@,
            c.spec_world_rect() == self.spec_world_rect(),
    {
        let particles = self.particles.clone();
        proof {
            assert forall|i: int| 0 <= i < particles@.len() implies #[trigger] particles@[i] == self.particles@[i] by {
                assert(cloned(self.particles@[i], particles@[i]));
            }
            assert(particles@ =~= self.particles@);
        }
        ParticleSystem { particles, world_rect: self.world_rect }
    }
}

impl<B> View for ParticleSystem<B> {
    type V = Seq<Particle<B>>;

    closed spec fn view(&self) -> Seq<Particle<B>> {
        self.particles@
    }
}

/// One frame of every particle of `old` gives `ran`, position by position.
pub open spec fn each_ran<B: Body>(old: Seq<Particle<B>>, ran: Seq<Particle<B>>) -> bool {
    &&& ran.len() == old.len()
    &&& forall|i: int| 0 <= i < ran.len() ==> particle_ran(old[i], #[trigger] ran[i])
}

/// `new` is what one run of the system `old` gives: every particle ran one
/// frame, in order, the dead ones were swept away and the others kept their
/// order; the world rectangle is kept.
pub open spec fn system_ran<B: Body>(old: ParticleSystem<B>, new: ParticleSystem<B>) -> bool {
    &&& new.spec_world_rect() == old.spec_world_rect()
    &&& exists|ran: Seq<Particle<B>>|
        #![trigger each_ran(old@, ran)]
        each_ran(old@, ran) && new@ == ran.filter(|p: Particle<B>| alive(p))
}

/// `new` is the system `old` with every particle pushed away by `r`, each
/// with the force with which `r` repels its own body; lifespans, order and
/// world rectangle are kept.
pub open spec fn system_repelled<B: Body, R: Repel<B>>(old: ParticleSystem<B>, r: R, new: ParticleSystem<B>) -> bool {
    &&& new.spec_world_rect() == old.spec_world_rect()
    &&& new@.len() == old@.len()
    &&& lifespans(new@) == lifespans(old@)
    &&& forall|i: int| 0 <= i < old@.len() ==> repelled_by(r, old@[i].body, #[trigger] new@[i].body)
}

proof fn lemma_lifespans_push<B>(s: Seq<Particle<B>>, p: Particle<B>)
    ensures
        lifespans(s.push(p)) == lifespans(s).push(p.lifespan),
{
    assert(lifespans(s.push(p)) =~= lifespans(s).push(p.lifespan));
}

/// Keeping the living particles keeps exactly the positive lifespans.
proof fn lemma_lifespans_filter_alive<B>(s: Seq<Particle<B>>)
    ensures
        lifespans(s.filter(|p: Particle<B>| alive(p))) == lifespans(s).filter(|l: u8| l > 0),
    decreases s.len(),
{
    reveal(Seq::filter);
    if s.len() > 0 {
        let init = s.drop_last();
        lemma_lifespans_filter_alive(init);
        assert(lifespans(s).drop_last() =~= lifespans(init));
        lemma_lifespans_push(init.filter(|p: Particle<B>| alive(p)), s.last());
    }
}

/// Lifespans of particles aged position by position are the aged lifespans.
proof fn lemma_lifespans_aged_each<B: Body>(old: Seq<Particle<B>>, ran: Seq<Particle<B>>)
    requires
        each_ran(old, ran),
    ensures
        lifespans(ran) == lifespans(old).map_values(|l: u8| aged(l)),
{
    assert(lifespans(ran) =~= lifespans(old).map_values(|l: u8| aged(l)));
}

impl<B> ParticleSystem<B> {
    /// The world rectangle of the system.
    pub closed spec fn spec_world_rect(&self) -> Rect {
        self.world_rect
    }
}

impl<B: Body> ParticleSystem<B> {
    /// An empty particle system living in the world rectangle `world_rect`.
    pub fn new(world_rect: Rect) -> (ps: Self)
        ensures
            ps@ == Seq::<Particle<B>>::empty(),
            ps.spec_world_rect() == world_rect,
    {
        ParticleSystem { particles: Vec::new(), world_rect }
    }

    /// A system living in `world_rect` that holds `np` particles, each made
    /// by one call of `make`, in order.
    pub fn from_fn<F: Fn() -> Particle<B>>(np: usize, world_rect: Rect, make: F) -> (ps: Self)
        requires
            call_requires(make, ()),
        ensures
            ps@.len() == np,
            ps.spec_world_rect() == world_rect,
            forall|i: int| 0 <= i < np ==> call_ensures(make, (), #[trigger] ps@[i]),
    {
        let mut particles: Vec<Particle<B>> = Vec::new();
        for i in 0..np
            invariant
                call_requires(make, ()),
                particles@.len() == i,
                forall|j: int| 0 <= j < i ==> call_ensures(make, (), #[trigger] particles@[j]),
        {
            let p = make();
            particles.push(p);
        }
        ParticleSystem { particles, world_rect }
    }

    /// Adds a copy of `p` at the end of the system.
    pub fn add_particle(&mut self, p: &Particle<B>)
        ensures
            particle_added(*old(self), *p, *final(self)),
            final(self)@ == old(self)@.push(*p),
            final(self).spec_world_rect() == old(self).spec_world_rect(),
    {
        self.particles.push(*p);
    }

    /// The number of particles in the system.
    pub fn nparticles(&self) -> (n: usize)
        ensures
            n == self@.len(),
    {
        self.particles.len()
    }

    /// The number of particles in the system.
    pub fn len(&self) -> (n: usize)
        ensures
            n == self@.len(),
    {
        self.particles.len()
    }

    /// The world rectangle of the system.
    pub fn world_rect(&self) -> (r: Rect)
        ensures
            r == self.spec_world_rect(),
    {
        self.world_rect
    }

    /// The particle at position `i`.
    pub fn index(&self, i: usize) -> (p: &Particle<B>)
        requires
            i < self@.len(),
        ensures
            *p == self@[i as int],
    {
        &self.particles[i]
    }

    /// One frame of the system: every particle runs once, in order, and the
    /// particles that died are swept away; the others keep their order.
    pub fn run(&mut self)
        ensures
            system_ran(*old(self), *final(self)),
            lifespans(final(self)@) == survivors(lifespans(old(self)@)),
            forall|i: int| 0 <= i < final(self)@.len() ==> alive(#[trigger] final(self)@[i]),
            final(self)@.len() <= old(self)@.len(),
    {
        let ghost start = self.particles@;
        let n = self.particles.len();
        for i in 0..n
            invariant
                n == start.len(),
                self.particles@.len() == n,
                self.world_rect == old(self).world_rect,
                forall|j: int| 0 <= j < i ==> particle_ran(start[j], #[trigger] self.particles@[j]),
                forall|j: int| i <= j < n ==> #[trigger] self.particles@[j] == start[j],
        {
            self.particles[i].run();
        }
        let ghost ran = self.particles@;
        assert(each_ran(start, ran));
        let mut kept: Vec<Particle<B>> = Vec::new();
        for i in 0..n
            invariant
                n == ran.len(),
                self.particles@ == ran,
                kept@ == ran.take(i as int).filter(|p: Particle<B>| alive(p)),
        {
            let p = self.particles[i];
            proof {
                assert(ran.take(i + 1) =~= ran.take(i as int).push(p));
                ran.take(i as int).lemma_filter_push(p, |p: Particle<B>| alive(p));
            }
            if !p.is_dead() {
                kept.push(p);
            }
        }
        proof {
            assert(ran.take(n as int) =~= ran);
            lemma_lifespans_filter_alive(ran);
            lemma_lifespans_aged_each(start, ran);
            ran.lemma_filter_len(|p: Particle<B>| alive(p));
            assert forall|i: int| 0 <= i < kept@.len() implies alive(#[trigger] kept@[i]) by {
                ran.lemma_filter_pred(|p: Particle<B>| alive(p), i);
            }
        }
        self.particles = kept;
        assert(each_ran(old(self)@, ran) && self.particles@ == ran.filter(|p: Particle<B>| alive(p)));
    }

    /// Pushes every particle with `force`, in order; lifespans are left as
    /// they were.
    pub fn apply_force(&mut self, force: B::Force)
        ensures
            system_pushed(*old(self), force, *final(self)),
            final(self).spec_world_rect() == old(self).spec_world_rect(),
            final(self)@.len() == old(self)@.len(),
            forall|i: int|
                0 <= i < old(self)@.len() ==> pushed_by(old(self)@[i].body, force, #[trigger] final(self)@[i].body),
            lifespans(final(self)@) == lifespans(old(self)@),
    {
        let ghost start = self.particles@;
        let n = self.particles.len();
        for i in 0..n
            invariant
                n == start.len(),
                self.particles@.len() == n,
                self.world_rect == old(self).world_rect,
                forall|j: int| 0 <= j < n ==> #[trigger] self.particles@[j].lifespan == start[j].lifespan,
                forall|j: int| 0 <= j < i ==> pushed_by(start[j].body, force, #[trigger] self.particles@[j].body),
                forall|j: int| i <= j < n ==> #[trigger] self.particles@[j] == start[j],
        {
            self.particles[i].apply_force(force);
        }
        assert(lifespans(self.particles@) =~= lifespans(start));
    }

    /// Pushes every particle, in order, with the force with which the
    /// repeller `r` repels its body; lifespans are left as they were.
    pub fn apply_repeller<R: Repel<B>>(&mut self, r: &R)
        ensures
            system_repelled(*old(self), *r, *final(self)),
            forall|i: int|
                #![trigger old(self)@[i]]
                0 <= i < old(self)@.len() ==> exists|force: B::Force|
                    #[trigger] call_ensures(R::repel, (r, &old(self)@[i].body), force)
                        && call_ensures(B::pushed, (&old(self)@[i].body, force), final(self)@[i].body),
            final(self).spec_world_rect() == old(self).spec_world_rect(),
            final(self)@.len() == old(self)@.len(),
            forall|i: int|
                0 <= i < old(self)@.len() ==> repelled_by(*r, old(self)@[i].body, #[trigger] final(self)@[i].body),
            lifespans(final(self)@) == lifespans(old(self)@),
    {
        let ghost start = self.particles@;
        let n = self.particles.len();
        for i in 0..n
            invariant
                n == start.len(),
                self.particles@.len() == n,
                self.world_rect == old(self).world_rect,
                forall|j: int| 0 <= j < n ==> #[trigger] self.particles@[j].lifespan == start[j].lifespan,
                forall|j: int| 0 <= j < i ==> repelled_by(*r, start[j].body, #[trigger] self.particles@[j].body),
                forall|j: int| i <= j < n ==> #[trigger] self.particles@[j] == start[j],
        {
            let force = r.repel(&self.particles[i].body);
            self.particles[i].apply_force(force);
            assert(call_ensures(R::repel, (r, &start[i as int].body), force)
                && pushed_by(start[i as int].body, force, self.particles@[i as int].body));
        }
        assert forall|i: int|
            #![trigger old(self)@[i]]
            0 <= i < old(self)@.len() implies exists|force: B::Force|
                #[trigger] call_ensures(R::repel, (r, &old(self)@[i].body), force)
                    && call_ensures(B::pushed, (&old(self)@[i].body, force), self@[i].body) by {
            lemma_repelled_by_own_force(*r, start[i].body, self.particles@[i].body);
        }
        assert(lifespans(self.particles@) =~= lifespans(start));
    }
}

} // verus!
