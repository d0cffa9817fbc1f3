use vstd::prelude::*;

verus! {

/// Lifespan of a freshly created particle.
pub const FULL_LIFE: u8 = 255;

/// How much lifespan a particle loses at every update.
pub const LIFE_DELTA: u8 = 2;

/// The lifespan a particle has after one update: it loses `LIFE_DELTA`,
/// and never goes below zero.
pub open spec fn aged(life: u8) -> u8 {
    if life >= LIFE_DELTA {
        (life - LIFE_DELTA) as u8
    } else {
        0
    }
}

/// `new` is a body that pushing `old` with `force` can give: the library
/// knows of a push no more than what the body's `pushed` returns.
pub open spec fn pushed_by<B: Body>(old: B, force: B::Force, new: B) -> bool {
    call_ensures(B::pushed, (&old, force), new)
}

/// `new` is a body that one step of motion of `old` can give: the library
/// knows of a step no more than what the body's `integrated` returns.
pub open spec fn integrated_by<B: Body>(old: B, new: B) -> bool {
    call_ensures(B::integrated, (&old,), new)
}

/// `g` is a force that the body's `gravity` can give.
pub open spec fn gravity_force<B: Body>(g: B::Force) -> bool {
    call_ensures(B::gravity, (), g)
}

/// `new` is what one frame of the particle `old` can give: its lifespan is
/// aged, and its body made one step of motion and was then pushed by gravity.
pub open spec fn particle_ran<B: Body>(old: Particle<B>, new: Particle<B>) -> bool {
    &&& new.lifespan == aged(old.lifespan)
    &&& exists|mid: B, g: B::Force|
        #![trigger integrated_by(old.body, mid), pushed_by(mid, g, new.body)]
        integrated_by(old.body, mid) && gravity_force::<B>(g) && pushed_by(mid, g, new.body)
}

/// The physical state that a particle carries.
///
/// It is advanced by the particle at every update and pushed by forces; the
/// library never inspects it.
pub trait Body: Copy {
    /// What can push a body.
    type Force: Copy;

    /// The body after one step of motion: the acceleration is added to the
    /// velocity, the velocity to the position, and the acceleration is
    /// cleared.
    fn integrated(&self) -> Self;

    /// The body as it is once `force` has been accumulated into its
    /// acceleration.
    fn pushed(&self, force: Self::Force) -> Self;

    /// The force of gravity, applied to every particle once per frame.
    fn gravity() -> Self::Force;
}

/// A particle: a body and the lifespan it has left.
#[derive(Copy, Debug, PartialEq)]
pub struct Particle<B> {
    pub body: B,
    pub lifespan: u8,
}

impl<B: Copy> Clone for Particle<B> {
    fn clone(&self) -> (p: Self)
        ensures
            p == *self,
    {
        *self
    }
}

impl<B: Body> Particle<B> {
    /// A new particle with the given body and a full lifespan.
    pub fn new(body: B) -> (p: Self)
        ensures
            p.body == body,
            p.lifespan == FULL_LIFE,
    {
        Particle { body, lifespan: FULL_LIFE }
    }

    /// Pushes the particle's body with `force`; its lifespan is left as it
    /// was.
    pub fn apply_force(&mut self, force: B::Force)
        ensures
            pushed_by(old(self).body, force, final(self).body),
            final(self).lifespan == old(self).lifespan,
    {
        self.body = self.body.pushed(force);
    }

    /// Sets the lifespan and returns a copy of the particle as it now is.
    pub fn with_life(&mut self, life: u8) -> (p: Self)
        ensures
            final(self).lifespan == life,
            final(self).body == old(self).body,
            p == *final(self),
    {
        self.lifespan = life;
        *self
    }

    /// The particle loses `LIFE_DELTA` of its lifespan, down to zero.
    fn update_life(&mut self)
        ensures
            final(self).lifespan == aged(old(self).lifespan),
            final(self).body == old(self).body,
    {
        if self.lifespan >= LIFE_DELTA {
            self.lifespan = self.lifespan - LIFE_DELTA;
        } else {
            self.lifespan = 0;
        }
    }

    /// One step of the particle: its body moves and it ages.
    pub fn update(&mut self)
        ensures
            integrated_by(old(self).body, final(self).body),
            final(self).lifespan == aged(old(self).lifespan),
    {
        self.body = self.body.integrated();
        self.update_life();
    }

    /// One frame of the particle: it is updated, then gravity is applied for
    /// the next frame.
    pub fn run(&mut self)
        ensures
            particle_ran(*old(self), *final(self)),
            final(self).lifespan == aged(old(self).lifespan),
    {
        let ghost start = self.body;
        self.update();
        let ghost mid = self.body;
        let g = B::gravity();
        self.body = self.body.pushed(g);
        assert(integrated_by(start, mid) && gravity_force::<B>(g) && pushed_by(mid, g, self.body));
    }

    /// A particle is dead once its lifespan has run out.
    pub fn is_dead(&self) -> (dead: bool)
        ensures
            dead == (self.lifespan == 0),
    {
        self.lifespan == 0
    }
}

} // verus!
