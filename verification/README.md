# bld — Boundary-Led Development tooling, verified

A domain is a YAML spec: states, an initial state, and three doors (`proposal`,
`fact`, `system_event`) whose edges name transitions. The library parses a
spec, derives the full `(state, input)` grid of every door, validates it,
renders it as `topology.json` and a Mermaid diagram, checks a shipped domain's
exported `topology.json` for drift, and answers the MCP protocol over all of
this. The library's logic in `src/` is verified with Verus; the few calls into
`serde_json` and `serde_yaml` stand behind small trusted wrappers whose
contracts Verus takes on trust.

Layout:

- `src/spec.rs` — the spec types and the YAML reader (a verified decoder over
  the value `serde_yaml` reads);
- `src/topology.rs` — the grid, the diagnostics, reachability;
- `src/report.rs`, `src/render.rs` — the text report, `topology.json`, Mermaid;
- `src/verify.rs` — drift between a spec and an exported `topology.json`;
- `src/mcp.rs` — the JSON-RPC request handler;
- `src/json.rs`, `src/yaml.rs` — documents as plain values, exchanged with
  `serde_json` and `serde_yaml` through small trusted wrappers;
- `src/text.rs` — decimal and padded text;
- `src/laws.rs` — the properties that span functions (totality, soundness,
  render-then-verify, the protocol's replies);
- `app/` — the stdio server loop and reading a spec from a file.

What the protocol serves differs from a full BLD toolchain in two places:

- The scaffold tools (`scaffold_domain`, `scaffold_adversarial`,
  `scaffold_probe`) do not generate code. This library holds no generator of
  Rust source: for a sound spec they answer with a one-line notice saying so,
  and for an unsound spec they refuse, as every tool does.
- The `bld://example` resource (`mcp::EXAMPLE`) is this library's own
  approval-workflow template, written for it.
