# kakera

An I/O-free photomosaic engine. A target image is cut into cells; each cell
is matched to the source tile whose colour feature is nearest, under optional
constraints (a usage cap per tile, placing every tile at least once, avoiding
equal neighbours); the matched tiles are painted into an RGBA8 canvas.

## Layout

- `src/` — the verified core (Verus): RGBA8 buffers (`image`), the cell grid
  and request validation (`grid`), exact integer colour sums and resampling
  geometry (`sums`), the tile-assignment passes with their exact
  specification (`assign`), writers that place computed pixels inside one
  cell (`paint`), and the properties proved of the assignment (`laws`:
  every cell gets an index tile, the usage cap holds, every tile is placed
  when coverage is asked for, the greedy baseline is a nearest match, and
  what each constraint pass does on its own).
- `app/` — the command-line front end and the in-memory engine for script
  hosts: image decoding, JSON index files, the floating-point feature
  averages and distances, painting, and the thread pool.
- `tests/` — unit and scenario tests of the core.

Feature distances are single-precision values; the front end hands them to
the core as fixed-point `u128` keys (`DISTANCE_SCALE = 2^32`). Every
distance from `2^-9` up to (not including) `2^96` is a multiple of `2^-32`,
so its key is exact and keys order and subtract exactly like the distances;
features of 8-bit images stay far below `2^96`. Smaller distances are
rounded to the nearest multiple of `2^-32`; infinite distances (features of
a different grid) and NaN get the largest key and rank last.
