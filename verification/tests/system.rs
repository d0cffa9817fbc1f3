use egui::{pos2, vec2, Pos2, Rect, Vec2};
use particle_system::{Body, Particle, ParticleSystem, Repel, Scene};

#[derive(Clone, Copy, Debug, PartialEq)]
struct Dot {
    position: Pos2,
    velocity: Vec2,
    accel: Vec2,
}

impl Body for Dot {
    type Force = Vec2;

    fn integrated(&self) -> Self {
        let velocity = self.velocity + self.accel;
        Dot { position: self.position + velocity, velocity, accel: Vec2::ZERO, ..*self }
    }

    fn pushed(&self, force: Vec2) -> Self {
        Dot { accel: self.accel + force, ..*self }
    }

    fn gravity() -> Vec2 {
        vec2(0.0, 0.1)
    }
}

#[derive(Clone, Copy, Debug, PartialEq)]
struct Push {
    force: Vec2,
}

impl Repel<Dot> for Push {
    fn repel(&self, _body: &Dot) -> Vec2 {
        self.force
    }
}

fn dot(life: u8) -> Particle<Dot> {
    Particle::new(Dot { position: pos2(1.0, 1.0), velocity: Vec2::ZERO, accel: Vec2::ZERO })
        .with_life(life)
}

fn world() -> Rect {
    Rect::from_min_max(pos2(0.0, 0.0), pos2(100.0, 100.0))
}

fn system(lives: &[u8]) -> ParticleSystem<Dot> {
    let mut ps = ParticleSystem::new(world());
    for &l in lives {
        ps.add_particle(&dot(l));
    }
    ps
}

fn lives(ps: &ParticleSystem<Dot>) -> Vec<u8> {
    (0..ps.len()).map(|i| ps.index(i).lifespan).collect()
}

#[test]
fn new_system_is_empty() {
    let ps: ParticleSystem<Dot> = ParticleSystem::new(world());
    assert_eq!(ps.len(), 0);
    assert_eq!(ps.nparticles(), 0);
    assert_eq!(ps.world_rect(), world());
}

#[test]
fn add_particle_appends() {
    let mut ps = system(&[5, 6]);
    ps.add_particle(&dot(7));
    assert_eq!(lives(&ps), vec![5, 6, 7]);
    assert_eq!(ps.nparticles(), 3);
}

#[test]
fn run_sweeps_dead_particles_and_keeps_order() {
    let mut ps = system(&[10, 2, 1, 0, 7, 3]);
    ps.run();
    assert_eq!(lives(&ps), vec![8, 5, 1]);
    assert_eq!(ps.world_rect(), world());
    ps.run();
    assert_eq!(lives(&ps), vec![6, 3]);
}

#[test]
fn run_moves_the_bodies() {
    let mut ps = system(&[10]);
    ps.run();
    // gravity is applied after the move, so the body has not moved yet
    assert_eq!(ps.index(0).body.position, pos2(1.0, 1.0));
    assert_eq!(ps.index(0).body.accel, vec2(0.0, 0.1));
    ps.run();
    assert_eq!(ps.index(0).body.position, pos2(1.0, 1.1));
}

#[test]
fn apply_force_and_repeller_keep_lifespans() {
    let mut ps = system(&[4, 9]);
    ps.apply_force(vec2(1.0, 0.0));
    ps.apply_repeller(&Push { force: vec2(0.0, -2.0) });
    assert_eq!(lives(&ps), vec![4, 9]);
    assert_eq!(ps.index(1).body.accel, vec2(1.0, -2.0));
}

#[test]
fn scene_counts_particles() {
    let mut scene: Scene<Dot, Push> = Scene::new();
    assert_eq!(scene.nparticles(), 0);
    scene.psystems.push(system(&[1, 2, 3]));
    scene.psystems.push(system(&[4]));
    assert_eq!(scene.nparticles(), 4);
    assert_eq!(scene.index(1).len(), 1);
}

#[test]
fn scene_run_sweeps_empty_systems() {
    let mut scene: Scene<Dot, Push> = Scene::new();
    scene.psystems.push(system(&[2, 1]));
    scene.psystems.push(system(&[9, 1]));
    scene.psystems.push(system(&[]));
    scene.psystems.push(system(&[5]));
    scene.repellers.push(Push { force: vec2(0.5, 0.0) });
    scene.run();
    assert_eq!(scene.psystems.len(), 2);
    assert_eq!(lives(scene.index(0)), vec![7]);
    assert_eq!(lives(scene.index(1)), vec![3]);
    assert_eq!(scene.nparticles(), 2);
    assert_eq!(scene.repellers.len(), 1);
    // the repeller pushed after gravity was applied
    assert_eq!(scene.index(0).index(0).body.accel, vec2(0.5, 0.1));
}

#[test]
fn scene_fades_after_128_runs() {
    let mut scene: Scene<Dot, Push> = Scene::new();
    scene.psystems.push(system(&[255, 100]));
    scene.psystems.push(system(&[3]));
    for _ in 0..127 {
        scene.run();
        assert!(!scene.psystems.is_empty());
    }
    assert_eq!(scene.nparticles(), 1);
    scene.run();
    assert!(scene.psystems.is_empty());
    assert_eq!(scene.nparticles(), 0);
}

#[test]
fn add_particle_to_last_needs_a_system() {
    let mut scene: Scene<Dot, Push> = Scene::new();
    assert!(!scene.add_particle_to_last(&dot(5)));
    assert!(scene.psystems.is_empty());
    scene.psystems.push(system(&[1]));
    scene.psystems.push(system(&[2]));
    assert!(scene.add_particle_to_last(&dot(5)));
    assert_eq!(lives(scene.index(0)), vec![1]);
    assert_eq!(lives(scene.index(1)), vec![2, 5]);
}

#[test]
fn remove_repellers_removes_the_marked_ones() {
    let mut scene: Scene<Dot, Push> = Scene::new();
    for k in 0..4 {
        scene.repellers.push(Push { force: vec2(k as f32, 0.0) });
    }
    scene.psystems.push(system(&[1]));
    scene.remove_repellers(&vec![true, false, true, false]);
    assert_eq!(scene.repellers, vec![Push { force: vec2(1.0, 0.0) }, Push { force: vec2(3.0, 0.0) }]);
    assert_eq!(scene.psystems.len(), 1);
    scene.remove_repellers(&vec![false, false]);
    assert_eq!(scene.repellers.len(), 2);
}

#[test]
fn from_fn_builds_np_particles_in_its_rect() {
    let ps = ParticleSystem::from_fn(7, world(), || dot(9));
    assert_eq!(ps.len(), 7);
    assert_eq!(lives(&ps), vec![9; 7]);
    assert_eq!(ps.world_rect(), world());
    let empty = ParticleSystem::from_fn(0, world(), || dot(9));
    assert_eq!(empty.len(), 0);
}

#[test]
fn world_rect_is_kept_through_operations() {
    let mut ps = ParticleSystem::from_fn(3, world(), || dot(4));
    ps.run();
    ps.add_particle(&dot(1));
    ps.apply_force(vec2(1.0, 1.0));
    ps.apply_repeller(&Push { force: vec2(-1.0, 0.0) });
    ps.run();
    ps.run();
    assert_eq!(ps.world_rect(), world());
    assert_eq!(ps.len(), 0);
}
