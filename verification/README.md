# tower_defense

The rules of a hex-grid tower defense game and of its map editor, written
in Verus and proved against their contracts: the path network, the map file,
the draft, shop, spells and item unlocks, and the editor. Combat is not part
of this crate: towers aiming and firing, enemies moving, projectiles, and the
effects of spells and items are neither in the library nor in the app, whose
waves end on a key press.

## Layout

- `src/` — the verified library.
  - `hex`: axial coordinates, adjacency, and tile lists read as maps.
  - `paths`: the path network (parents, crossings, placement, terminal
    paths, enemy routes and counts); placing paths keeps the placed network
    connected to the root and free of crossings.
  - `validation`: shape and cycle checks of a path network, with messages.
  - `terrain`, `regions`, `terrain_file`: terrain kinds, named regions and
    the text format of the map file; `file_round_trip` proves that reading a
    written file gives back what was written.
  - `resources`, `unlocks`: the spell slots, the tower draft (with forced
    offers from the command line), the item shop and its pool, and item
    unlocking.
  - `game`, `strat`, `components`: end of round, regeneration, rewards and
    wave sizes.
  - `editor`, `tooltip`, `text`: editor state and help text, tooltip
    highlighting, and the character-level text helpers everything else is
    built on.
- `tests/` — tests of the library on concrete values.
- `app/` — the game and editor windows (Bevy), file I/O, floating-point
  geometry and noise-based terrain generation. Run with `--editor` for the
  map editor, or `--towers=a,b` to force the first draft offers.
