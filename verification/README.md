# engine_core

The core of a small game engine, written in Verus: the library under `src/` is verified
by Verus, its public functions stated by contracts over mathematical views.

- `src/ecs`: the archetype-based world (entities, components, resources, assets), queries,
  deferred commands, system ordering, the fixed-timestep clock and the order of a frame's
  stages.
- `src/assets`: generational asset storage with lookup by path.
- `src/input`: device state (keys, buttons, gamepad, touches, wheel) and action bindings.
- `src/networking`: snapshot replication and packet framing.
- `src/client`: the settings window's rebinding state machine and rendering settings, the
  main menu's and the editor hierarchy panel's decisions, and registry versions.
- `app/`: the client program around the library: the window and device events, the
  network connection, transforms, cameras and physics (floating point), and saving
  bindings.
