use egui::{pos2, vec2, Pos2, Rect, Vec2};
use particle_system::{Body, Particle, ParticleSystem, FULL_LIFE, LIFE_DELTA};

#[derive(Clone, Copy, Debug, PartialEq)]
struct Mote {
    position: Pos2,
    velocity: Vec2,
    accel: Vec2,
    mass: f32,
}

impl Body for Mote {
    type Force = Vec2;

    fn integrated(&self) -> Self {
        let velocity = self.velocity + self.accel;
        Mote { position: self.position + velocity, velocity, accel: Vec2::ZERO, ..*self }
    }

    fn pushed(&self, force: Vec2) -> Self {
        Mote { accel: self.accel + force / self.mass, ..*self }
    }

    fn gravity() -> Vec2 {
        vec2(0.0, 0.1)
    }
}

fn mote(x: f32, y: f32) -> Mote {
    Mote { position: pos2(x, y), velocity: Vec2::ZERO, accel: Vec2::ZERO, mass: 1.0 }
}

fn particle(x: f32, y: f32) -> Particle<Mote> {
    Particle::new(mote(x, y))
}

#[test]
fn lifespan() {
    let p = particle(10.0, 2.5).with_life(12);
    assert_eq!(p.lifespan, 12);
    assert_eq!(p.body.position, [10.0, 2.5].into());
}

#[test]
fn lifespan_update() {
    let mut p = particle(10.0, 2.5).with_life(10);
    p.update();
    assert_eq!(p.lifespan, 8);
}

#[test]
fn accel_update() {
    let mut p = particle(10.0, 2.5);
    p.body.accel = vec2(3.6, 2.2);
    p.update();
    assert_eq!(p.body.accel, [0.0, 0.0].into());
}

#[test]
fn velocity_update() {
    let mut p = particle(10.0, 2.5);
    p.body.accel = vec2(3.6, 2.2);
    p.update();
    assert_eq!(p.body.velocity, [3.6, 2.2].into());
}

#[test]
fn test_apply_force_accumulation() {
    let mut p = particle(0.0, 0.0);
    p.apply_force(vec2(1.0, 0.0));
    p.apply_force(vec2(0.0, 2.0));
    assert_eq!(p.body.accel, vec2(1.0, 2.0));
}

#[test]
fn test_update_physics_step() {
    let mut p = particle(10.0, 10.0);
    p.apply_force(vec2(1.0, 0.0));
    p.update();
    assert_eq!(p.body.velocity, vec2(1.0, 0.0));
    assert_eq!(p.body.position, pos2(11.0, 10.0));
    assert_eq!(p.body.accel, vec2(0.0, 0.0));
}

#[test]
fn test_run_lifecycle() {
    let mut p = particle(0.0, 0.0);
    let initial_life = p.lifespan;
    p.run();
    assert!(p.lifespan < initial_life);
    assert_eq!(p.body.accel, vec2(0.0, 0.1));
}

#[test]
fn test_apply_force_with_different_types() {
    let mut p = particle(0.0, 0.0);
    p.apply_force([1.0, 2.0].into());
    assert_eq!(p.body.accel, vec2(1.0, 2.0));
    p.apply_force(vec2(1.0, 1.0));
    assert_eq!(p.body.accel, vec2(2.0, 3.0));
}

fn setup_test_system(n: usize) -> ParticleSystem<Mote> {
    let world_rect = Rect::from_min_max(pos2(0.0, 0.0), pos2(100.0, 100.0));
    ParticleSystem::from_fn(n, world_rect, || particle(50.0, 50.0))
}

#[test]
fn test_system_initialization() {
    let n_particles = 10;
    let ps = setup_test_system(n_particles);
    assert_eq!(ps.len(), n_particles);
    assert_eq!(ps.world_rect().width(), 100.0);
}

#[test]
fn test_particle_movement() {
    let mut p = particle(0.0, 0.0);
    p.body.velocity = vec2(1.0, 1.0);
    p.body.accel = vec2(0.5, 0.0);
    p.update();
    assert!(p.body.position.x > 0.0);
    assert_eq!(p.body.position.y, 1.0);
}

#[test]
fn test_particle_lifespan_death() {
    let mut p = particle(0.0, 0.0);
    let initial_life = p.lifespan;
    p.update();
    assert!(p.lifespan < initial_life);
    while p.lifespan > 10 {
        p.update();
    }
    p.with_life(0);
    assert!(p.is_dead());
}

#[test]
fn test_system_update_consistency() {
    let world_rect = Rect::from_min_max(pos2(0.0, 0.0), pos2(100.0, 100.0));
    let mut ps = ParticleSystem::new(world_rect);
    for _ in 0..5 {
        let mut p = particle(50.0, 50.0);
        p.body.velocity = vec2(1.0, 0.0);
        ps.add_particle(&p);
    }
    let initial_pos = ps.index(0).body.position;
    ps.run();
    assert_ne!(ps.index(0).body.position, initial_pos);
}

#[test]
fn new_particle_has_full_life() {
    let p = particle(1.0, 2.0);
    assert_eq!(p.lifespan, FULL_LIFE);
    assert_eq!(p.lifespan, 255);
    assert!(!p.is_dead());
}

#[test]
fn update_saturates_at_zero() {
    let mut p = particle(0.0, 0.0).with_life(1);
    p.update();
    assert_eq!(p.lifespan, 0);
    assert!(p.is_dead());
    p.update();
    assert_eq!(p.lifespan, 0);
}

#[test]
fn update_takes_life_delta() {
    let mut p = particle(0.0, 0.0).with_life(100);
    p.update();
    assert_eq!(p.lifespan, 100 - LIFE_DELTA);
    p.run();
    assert_eq!(p.lifespan, 96);
}

#[test]
fn full_life_lasts_exactly_128_updates() {
    let mut p = particle(0.0, 0.0);
    for _ in 0..127 {
        p.update();
        assert!(!p.is_dead());
    }
    assert_eq!(p.lifespan, 1);
    p.update();
    assert!(p.is_dead());
}

#[test]
fn with_life_returns_the_updated_particle() {
    let mut p = particle(3.0, 4.0);
    let q = p.with_life(7);
    assert_eq!(p.lifespan, 7);
    assert_eq!(q.lifespan, 7);
    assert_eq!(q.body, p.body);
}

#[test]
fn apply_force_keeps_lifespan() {
    let mut p = particle(0.0, 0.0).with_life(9);
    p.apply_force(vec2(4.0, 4.0));
    assert_eq!(p.lifespan, 9);
    assert_eq!(p.body.accel, vec2(4.0, 4.0));
}
