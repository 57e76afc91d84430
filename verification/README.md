# mcrs

The rules of a voxel world, verified with Verus.

- `src/` is the library: flag banks, blocks and blueprints, 32³ chunks and
  the chunked universe, sun beams, flood-fill light and darkness, terrain
  edits, the chunk generation passes, the stored formats of chunks and sun
  beam regions, the network bookkeeping (lobby, channels, chunk
  replication), settings, the hotbar, voxel shapes and grids, and the
  texture-to-cube tool. Every function there carries a contract that Verus
  proves; the calls into `miniz_oxide`, `dot_vox` and `rand` go through small
  trusted wrappers whose contracts are stated next to them.
- `tests/` runs the library on concrete values.
- `app/` is the headless program around it: the command line, the level
  database (`redb`), the noise terrain generator, the ray cast and the cube
  texture tool. It runs one generation step per tick until the spawn area is
  ready, then plays a short session on this machine: a player edits the
  terrain from the hotbar and a client is sent the spawn chunks.
