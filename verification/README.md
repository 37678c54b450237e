# nix_tools

Policy-free tooling for Nix flakes: a verified library (`src/`) and a thin program around it (`app/`).

The library decides; it performs no input or output of its own. Everything that it computes is
stated in contracts and proved with Verus.

| Module | What it holds |
| --- | --- |
| `graph`, `topology`, `requirements` | Validated derivation graphs, their dependency-first order, and the outputs that roots need |
| `reading`, `document`, `json` | The derivation document, read step by step within bounds |
| `activity`, `results` | Per-derivation progress out of Nix's activity stream, and the results that can be relied on |
| `transcript`, `excerpt`, `redaction` | Bounded plain-text logs, in which control sequences are dropped and registered secrets replaced |
| `flake`, `target` | Flake targets, attribute quoting, output discovery, and service selectors |
| `command` | Build, check and run over an injected engine |
| `runtime`, `cli`, `plan` | Operations as stages between outside actions, the command line's meaning, scheduling input |
| `ui` | The interactive display: its state, its keys, and what it shows |
| `process`, `outcome`, `model`, `store`, `ordered`, `text` | Shared data and strings |

Proof functions named `law_*` state what holds across functions: that the order of a graph is
unique, that a quoted attribute reads back as its name, that an app is executed only after its
realization succeeded, and so on.

The program links an engine, a process runner and a scheduler (`app/backend.rs`), paints the display
with ratatui (`app/screen.rs`) and feeds JSON to the library through serde (`app/adapters.rs`).
