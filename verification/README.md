# vdump

`vdump` decodes the current process's `vdso`, `vvar` and `vvar_clock`
mappings: it lists them, dumps them in hex, writes them raw, or decodes the
vDSO's ELF image and the clocks that the vvar data serves.

The library under `src/` is verified with Verus:

- `cli` — the command line, stated as a reading of the arguments in order;
- `maps` — `/proc/self/maps` lines to mappings of the three segments;
- `memory` — dumps, and the block-by-block copy that zero-fills pages the
  kernel reports unreadable;
- `elf` — bounds-checked reading of an ELF image: header, load segments and
  exported functions sorted by address, and their run-time addresses;
- `clocks` — civil dates from days, wall-clock, elapsed and resolution text;
- `output` — headers, the hex/ASCII dump with repeated rows collapsed, and
  the decoded fields of each segment;
- `session` — the decisions of a run: which mapping each segment selects,
  colors, raw-dump checks, and the text of each entry;
- `text`, `error` — text helpers and the error type.

`app/` holds the program around it: arguments, reading memory and files,
the system clocks, and writing to stdout and stderr.
