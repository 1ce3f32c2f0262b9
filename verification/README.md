# copper_differential

The deterministic core of a differential harness that runs a PCB autorouter
and a Java reference router side by side and compares what they print. Every
driver of the harness prints a transcript; this crate holds, verified with
Verus, the parts of those drivers that decide what is printed and from which
pseudo-random draws, and leaves the routers themselves, the files and the
processes to the program around it.

## Layout

- `src/` — the verified library.
  - Pseudo-random streams: `java_random` (`java.util.Random` and
    `Collections.shuffle`), `xorshift` (the xorshift64 stream and its bounded
    draws), `tolerance_probe` (a 64-bit linear congruential stream).
  - Scripted decisions: `mutation` (the board-history script's seed and steps),
    `room_probe` (the expansion-room probes' rooms, neighbours and obstacles),
    `tree_replay_probe` (the shape-tree replay's inserts, re-keys, removals and
    queries), `search_probe` (the search-tree probe's random items, areas and
    queries), `delaunay_probe` (the triangulation probe's point sets),
    `routing_probe` (the via classification and the via probe's targets).
  - Text: `text` (digits, splitting, joining, searching, replacing),
    `lexical` (lexicographic order and a line sort), `manifest` (manifest
    normalisation and escaping), `job_probe`, `stats_probe`, `report`
    (quoting, escaping, byte specs, boxed values), `settings_probe` (the case
    table, file specs, environment and argv strings, `path=value` lines),
    `batch_probe` (modes, limits, argv, the pass file), `cli_gate` (the
    whole-program comparison rows), `drc_probe` (unconnected findings and
    airlines), `dsn_probe` (the design name and the board dump of the
    design-file probe).
  - Renderings of geometric values, enumerations and trees: `geometry`,
    `kinds`, `render`, `board_probe`, `shape_probe`, `tree_probe` (with the
    indented dump of a shape tree), `tree_replay_probe`, `tree_dump_probe`,
    `search_probe`, `delaunay_probe`, `routing_probe`, `fanout_probe`.
- `tests/` — tests on concrete values for every module.
- `app/` — the drivers that use the library, as one program whose first
  argument names the driver. It needs the router's own crates, which are not
  published, besides `serde_json`.
