# roguemap

Overmap generation for a tile-based roguelike, verified with Verus.

The overmap is a grid of 128 x 128-tile chunks. Chunks hold cities; the
generator joins the cities of neighbouring chunks with roads, grows a street
network out of every city with random road builders, and (in the layout with
houses) places houses along the streets. The renderer turns generated chunks
into tile data, decides which tilemap chunks to keep around the player, and
picks a glyph for every tile.

Layout:

- `src/` is the verified library.
  - `ivec.rs`: integer vectors.
  - `utils.rs`: flat grid indices and the coordinates around a point.
  - `map/chunk_cursor.rs`: a position on the overmap that steps across chunk edges.
  - `map/overmap_generator.rs`: chunks, cities, roads, road builders and houses.
  - `map/roads.rs`: roads as walks over set tiles, and the invariant that every
    recorded connection between cities is such a road.
  - `map/generator.rs`: the roads-only layout.
  - `map/renderer.rs`: render tiles, chunk loading around the player, glyphs.
  - `player/`, `systems/`, `components/`: movement and on-screen positions.
  - `outside.rs`: the trusted interface to bevy's `HashMap`, the ChaCha
    generator and `rand`'s range sampling.
- `tests/`: tests run against the compiled library.
- `app/`: the bevy game around the library.
