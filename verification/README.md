# bevy_runeweave

The verified core of a runtime that lets Lua and JavaScript/TypeScript games
drive a Bevy world through one data-oriented ECS API.

Scripts spawn entities with string ids, attach named components and set named
resources. Every write is visible to the script at once; the Bevy world picks
the writes up once per frame.

## Layout

- `src/` — the library, verified with Verus.
  - `key`, `order`, `name_map`, `entity_map`: key rules and sorted maps.
  - `value`: the language-neutral value type.
  - `bridge`: the script-visible snapshot, its write queue and the shared
    owner-scoped handle scripts use on it; `laws` states what holds across
    operations.
  - `world`: what a hand-over of writes does to the host world.
  - `convert`: values from Lua and JavaScript, and the nesting limit.
  - `naming`, `interop`, `script_path`, `launch`, `launcher`, `host`: owner
    names, runtime errors, the entry script's path and reloading, game
    configuration, the desktop launcher's decisions, and what the example
    host reads.
- `app/` — the lock that shares the bridge state, the Bevy plugin and systems, the Lua and QuickJS bindings and the
  file-system edge, written against the library.
- `tests/` — tests of the library.
