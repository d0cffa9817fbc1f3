# particle_system

A particle-system simulator. The verified library (`src/`) keeps the
bookkeeping of the simulation and proves it correct:

- `particle`: a particle is a user-chosen physical `Body` and a lifespan;
  every update takes `LIFE_DELTA` from the lifespan, down to zero.
- `particlesystem`: a particle system runs its particles and sweeps the dead
  ones away, keeping the order of the living.
- `scene`: the particle systems and repellers of a simulation; a run sweeps
  away the systems left empty.
- `lifecycle`: laws on repeated updates and runs (every particle dies, every
  scene empties when nothing is added).

`app/` is the eframe/egui window: the floating-point physics of bodies and
repellers, random construction, the world/screen mapping and the drawing.
