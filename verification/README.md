# tmtinker

A toolkit for building Turing machines out of submachines, with the logic
verified by Verus.

- `src/` is the verified library: the tape and the machine's commands
  (`tape`, `tmcore`, `advanced`), alphabets and transition symbols
  (`alphabet`, `tm`), submachine graphs and their validation (`tm`),
  projects and their saved form (`project`, `bundle`), and the editor's
  decisions: selection, tools, node options, labels (`session`, `tools`,
  `node_edit`, `labels`, `text_input`, `router`, `toolbars`,
  `descriptions`). The slot maps of the `slotmap` crate are used through
  the trusted wrappers in `slots`.
- `app/` is the editor around it: the egui windows and canvas, node
  positions and notes (floating-point geometry), JSON through serde, and
  the error types with their `Display`.
- `tests/` runs the library on concrete values.
