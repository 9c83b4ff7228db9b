# openmoonvy_mcp_rs

An MCP server that turns Moonvy design files into front-end code material
(layer trees, node lookups, design diffs, asset links, a workspace catalog),
with its core written in Verus and verified.

## Layout

- `src/` — the verified library. Each public function states its result in
  `ensures` over spec functions and views; the laws of the library are public
  proof functions or clauses of those contracts.
  - `text`, `ids`, `json` — character sequences, id comparison, a plain JSON value
  - `api` — Moonvy URLs: parsing and building file URLs
  - `tree`, `shape` — the layer tree model and its construction (filters,
    empty-group skipping, mask groups, duplicates, text truncation)
  - `layers` — flat layer lists, node search, node lookup, design metadata
  - `assign`, `diff` — the Hungarian algorithm (least-cost assignment) and the
    tree diff that pairs same-name nodes with it
  - `listing` — list-API responses and the breadth-first page walk as a
    state machine
  - `catalog`, `tools` — the workspace catalog, its search, sync and file names
  - `asset`, `image_probe` — asset resolution and PNG/JPEG header probing
  - `server`, `prompts`, `genome` — request defaults, resources, prompts,
    format and weight names
- `app/` — the server itself: stdio MCP handlers, HTTP client, browser login,
  file and cache I/O, float geometry (placement, crop, style code, tokens).
  It calls the library for every decision it makes.
- `tests/` — tests of the library on concrete values.
