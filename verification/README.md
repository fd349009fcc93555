# hvisor-device-tree-tool

A library and command-line tool that reads Device Tree Source (DTS) files and
transforms or summarises them: sorting sibling nodes by their references,
extracting registers, interrupts, pin control settings and dependencies, and
removing disabled nodes. The library is written in Verus: every function in
`src/` carries a contract, which Verus proves, except the few small
functions that call std, `indexmap` or `petgraph`, whose contracts (stated
from those crates' documentation and source) are taken as given.

## Layout

- `src/dts/lexer.rs`, `src/dts/expr.rs`, `src/dts/parser.rs`: the source
  grammar. Each production is a spec function over the input bytes and a
  position; the reading functions are proved to give exactly what the spec
  gives. `parse_dt` reads a whole source, telling a truncated source
  (`IncompleteInput`, see `completion.rs`) from a malformed one.
- `src/dts/tree.rs`: the tree model (nodes, properties, cells) and its views.
- `src/visitors/`: the depth-first `Walker` and the visitors built on it. Each
  visitor states what entering and leaving a node do to its view, and the
  walker is proved to follow `walk_spec`. Proof functions in each module state
  what a whole walk does: the filter builds the tree without the selected
  subtrees, the sorter builds the tree with every group of siblings whose dependencies
  have no cycle in dependency order (a cycle keeps the order and is counted),
  the
  extractors only append to their results and restore their stacks.
- `src/text.rs`, `src/strmap.rs`: string helpers and a small string-keyed map.
- `app/main.rs`: the command line (file and standard input, printing).

## Usage

```bash
hvisor-device-tree-tool <COMMAND> [INPUT_FILE]
```

Commands: `sort`, `extract-regs`, `extract-interrupts`, `dependency`,
`extract-pinctrl`, `extract-device-pinctrl`, `filter`. Without an input file
the tool reads standard input.
