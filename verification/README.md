# elf-anatomy

Watch a binary become a process: a verified library that says what every byte of an ELF file
means, where it lands in memory, who rewrites it and in what order, and a command line around
it.

## What is proved

Each function states what it returns and changes, and Verus proves it. Beyond that the
library proves what holds of it as a whole:

- every byte of a file that parses belongs to exactly one leaf of its claim tree, and the
  leaves tile the file (`accounted`, `partition`);
- a set of claims is accepted exactly where it is such a partition; its children, roots and
  leaves are listed in order, none missing and none twice (`partition`);
- naming holes adds unclaimed leaves only, each under a shortest claim around it, and a
  second time adds nothing (`partition`);
- what is explained and what is filler are together the whole, over any number of files
  (`tally`, `accounted`);
- what is mapped is the sum of the file sizes of the loaded segments (`residency`);
- a byte has an address exactly where it is resident (`residency`);
- memory after a step depends on that step and those before it alone, the writes of a load
  are its startup relocations, and RELRO rounds down at both ends (`timeline`);
- the loaded closure is closed, and holds each library once (`load`);
- a position-independent program compares the same wherever it was loaded, and symbols are
  compared by containment (`compare`);
- no text out of a file can end a JSON string or open a tag (`trace_json`, `markup`).

Parsing takes any bytes at all: a malformed file is an error, never a panic.

## Layout

| | |
|---|---|
| `src/span.rs`, `claim.rs`, `coverage.rs`, `index.rs`, `partition.rs`, `tally.rs` | claims over a file, and the coverage invariant |
| `src/reader.rs`, `elf.rs`, `layout.rs`, `parse.rs`, `accounted.rs` | the ELF format and its parser |
| `src/model.rs`, `residency.rs`, `state.rs`, `timeline.rs` | the image in memory, and the load step by step |
| `src/load.rs`, `closure_report.rs` | the closure of libraries |
| `src/trace.rs`, `observed.rs`, `trace_json.rs`, `compare.rs` | an observed load, and the model held against it |
| `src/audit.rs` | findings about a file |
| `src/render.rs`, `player.rs`, `markup.rs`, `report.rs`, `columns.rs`, `session.rs` | pictures, pages and tables |
| `src/order.rs`, `scan.rs`, `text.rs` | sorting, splitting and writing text |
| `app/` | the `elfa` command line: files, processes, floating point, SVG |

`elfa trace` runs the binary it is given. Nothing else here does.
