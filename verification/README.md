# kleineOS kernel core

The verified part of a small RISC-V kernel, as a library (`src/`), and the
code that runs it on a hart (`app/`).

- `src/fdt.rs`: the flattened device tree: header, blob, nodes, the search for
  a child node by name, iteration over a node's properties, property names.
- `src/reader.rs`: the cursor over a structure block (big-endian words,
  padded byte runs, nul-terminated strings).
- `src/endian.rs`: big-endian 32-bit values as a device tree stores them.
- `src/trap.rs`: decoding of `scause` into interrupt and exception causes; the
  saved register frame and its text.
- `src/sbi.rs`: the registers of SBI calls (debug console write, set timer).
- `src/arch.rs`: bit updates of control and status registers.
- `src/text.rs`: numbers as decimal and hexadecimal text.
- `src/tree.rs`: structure blocks written out from a tree of nodes, and the
  laws over them: iterating a node's properties yields exactly its own
  properties; `find` finds the first direct child with the given unit name.
- `app/`: boot entry, inline assembly (CSR access, `ecall`, `wfi`), the
  console, the trap handler, and taking the device tree from raw memory.

Walks over the structure block are specified by spec functions (`find_walk`,
`prop_walk`) that say, token by token, what a search or a step of an
iteration comes to, including when the bytes are malformed; the executable
functions are proved to return exactly that. `Node::try_find` and
`PropertyIter::try_next` decide malformed bytes at run time and report them
as `MalformedStructure`; `find` and `next` ask the caller to exclude them.
