# param_tuner

The core of a ROS 2 parameter workbench, verified with Verus: the parameter
model (values, entries, nodes), local change tracking (stage, reset), the
export of parameters as standard ROS 2 parameter YAML (one file, one file per
namespace, one file per node), a demonstration backend, and the decisions of
the JSON-RPC client that talks to the ROS 2 sidecar agent.

- `src/text.rs` — character-level building blocks (numerals, trimming, line
  splitting, joining, quoting, string order) with their specifications.
- `src/model.rs` — the model types, their views, change tracking and its laws.
- `src/scalar.rs` — single-quoted YAML scalars and the law that each reads
  back as the string.
- `src/yaml.rs` — YAML export and its laws (filters and their monotonicity,
  the node list, namespace files and their node limit and their independence
  of target order, line layout, block scalars, read-back of strings, integers
  and lists).
- `src/mock.rs` — the demonstration backend.
- `src/rpc.rs` — reply interpretation and export planning for the agent client.
- `app/` — serializable copies of the model, the asynchronous backend
  interface, the agent process client and the user-interface commands.

Floating-point numbers are held by their IEEE 754 encoding together with the
texts the standard library writes for them; the application layer converts
from and to `f64`.
