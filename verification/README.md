# profiler

A system-wide sampling CPU profiler for Linux. An eBPF program counts
`(pid, kernel stack, user stack)` samples on every CPU; the user-space side
drains those counts, resolves instruction pointers to symbols and writes
either folded stacks (`frame1;frame2;... count`) or a self-contained SVG
flame graph.

## Layout

- `src/` is the library, written in Verus and verified: parsing of
  `/proc/kallsyms` and `/proc/<pid>/maps`, symbol tables of ELF binaries
  (read with the `object` crate), the per-binary symbol cache, frame
  resolution, stack aggregation and the folded-text output, the flame-graph
  tree, and the choice, order, depth, colour and escaped label of each frame
  the SVG draws.
- `app/` is the program around it: command-line parsing, loading and
  attaching the eBPF program (`aya`), the drain loop, file reading and
  writing, and the floating-point geometry of the SVG.
- `tests/` exercises the library.

The compiled eBPF object is named at run time by the `PROFILER_BPF_OBJ`
environment variable:

```sh
PROFILER_BPF_OBJ=profiler.bpf.o flamegraph-profiler record -d 30 -o profile.svg
```
