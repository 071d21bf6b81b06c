# voxel

The core of a multiplayer voxel game, written in Verus: the world is made of
chunks of 64 × 64 × 64 blocks, generated on a server and streamed to clients
over TCP.

- `src/` is the verified library: blocks and chunks, chunk deltas, structures
  and `.vox` models, world generation, the framing of events on the wire, the
  server's registers of users and chunks, the per-user chunk loading, and the
  client's chunk register and face selection for drawing.
- `app/` is the server program around it: TCP, bincode encoding of events,
  threads, handing over the chunks and changes that the verified register and
  loader decide to send, the settings file, and the floating-point noise that decides the
  terrain height and where trees, stones and houses stand. Run with
  `--vox-to-structure <input.vox> [output.dat]` it converts a MagicaVoxel model
  into a structure file.
- `tests/` exercises the library on concrete values.
