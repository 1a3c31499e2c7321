# Zephyrian Mesh: the simulation core

A verified simulator of a constellation of high-altitude balloons that get
their telemetry to the ground without being told how. Balloons form and lose
line-of-sight radio links as they drift; what each one knows of the network is
what it has heard. The library computes the truth beside it, so that belief and
truth can be compared.

`src/` is the library. Its functions carry contracts that Verus proves. What the
proofs take on trust is seven items: in `chance` the declaration of `rand`'s
generator, the three calls into it and a name for the generator that a seed
gives, and in `text` the quoting of text by the standard library and a name for
what it gives.

| Module | What it holds |
| --- | --- |
| `sim`, `sim_laws` | The world: balloons, towers, ticks, commands and snapshots, and what every tick keeps true. |
| `link_detection`, `spatial_grid`, `connectivity`, `graph`, `forest`, `union_find`, `grounding`, `mesh_adjacency`, `mesh_depth` | Who hears whom, and who is on the ground side. |
| `protocol::dv_dtn` | Store-and-forward over distance-vector beacons, over on-demand requests, or over flooded link states; bundles, queues and acknowledgements. |
| `protocol::epidemic` | Spray-and-wait. |
| `protocol::{choice, mesh, stats, readiness}` | Naming a protocol, running one, its counters, and whether it can take one more round. |
| `beacon`, `bundle` | The protocol with one fixed timing and a single carry slot. |
| `wind_field`, `wind_file`, `wind_cache` | Wind fields, their file layout, and how they are named, listed and chosen. |
| `sweep`, `protocol_sweep`, `aggregation`, `table`, `report`, `link_churn`, `ablation` | What the harnesses compute. |
| `telemetry`, `balloon`, `tower`, `text`, `chance`, `config` | What the rest is made of. |

Laws that hold across calls stand as public proof functions beside the
definitions they speak of: that no bundle is lost or doubled and none goes in a
circle, that everything drains once nothing new is made, that no route is
invented, that what is read from a wind file is what was written, and others.

Positions, wind speeds and all else that is not a whole number pass through the
library as bit patterns. `app/` holds the physics, the server and the harnesses;
it measures ranges and hands the library candidates, readings and the time.

`tests/` runs the library on concrete values.
