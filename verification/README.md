# engine

The core of a small game engine, written in Verus: an entity-component
system with generational entity handles, archetype storage, resources,
queries, staged system scheduling, lazily loaded resources and a scene
manager, plus keyboard/mouse state and the window's fullscreen key logic.

- `src/` is the verified library. Component and resource values are of one
  payload type `V` and are filed under numeric type keys.
  - `entity.rs`: handles and their allocator.
  - `components.rs`: columns and archetypes.
  - `world.rs`: the world (archetypes, entity locations, resources), entity
    building, spawning and despawning, and the laws that tie them together.
  - `query.rs`: query parameter checking and query iteration.
  - `system.rs`: systems, stages and the scheduler.
  - `assets.rs`: resources loaded on first use.
  - `scene.rs`, `manager.rs`: scenes and the scene manager.
  - `input.rs`, `settings.rs`: key and button state, window settings and the
    fullscreen key hooks.
- `tests/` exercises the library on concrete values.
- `app/` is the demo program around it: the window and event loop (winit),
  input conversion, frame timing, sound (kira), and the floating-point parts
  (transforms, draw commands, the double pendulum simulation).
