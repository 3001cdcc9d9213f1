# ecs_hierarchy

The parent-child hierarchy of an entity world, verified with Verus.

An entity may hold a `ChildOf` component naming its parent; a parent holds a
`Children` component listing, in order, the entities that point to it.
Inserting, replacing or removing `ChildOf` (with its hooks running) keeps the two
in step, an invalid `ChildOf` (to the entity itself or to a dead entity) removes
itself, and despawning an entity despawns everything its `Children` reach.

Layout:

- `src/entity.rs`: entity identifiers.
- `src/model.rs`: the mathematical model of a world (`WorldModel`) and of each
  operation on it, and the consistency of the hierarchy.
- `src/world.rs`: the world itself (`World`, `EntityRef`, `EntityWorldMut`), whose
  operations are proved to do to its model what the model's operations say,
  including the recursive despawn.
- `src/bundle.rs`: what to spawn, possibly with children nested in it.
- `src/hierarchy.rs`: `ChildOf`, `Children`, the child spawners and the hierarchy
  methods of `EntityWorldMut` and `EntityCommands`, and the check behind the
  "parent lacks a component" warning.
- `src/commands.rs`: queued commands and their application to a world.
- `src/laws.rs`: the properties that hold across operations (consistency is kept,
  invalid relationships remove themselves, despawning removes exactly a subtree,
  queued commands do what the direct calls do, ...).
- `app/lib.rs`: the hook that sends the warning to the log, and `children!`.
