# flint_init

A parallel-first init system for Linux: a dependency-DAG supervisor that starts each
service the moment its dependencies are ready. This crate is its verified core,
written in Verus; `app/` holds the program around it.

## Layout

- `src/` — the library, every function proved against its contract:
  - `service` — service definitions and the `ready.path` safety rules;
  - `dag`, `graph` — the dependency graph: unknown dependencies, cycles (Kahn's
    algorithm), in-degree tracking, the ready queue and the shutdown order;
  - `executor` — the supervisor's decisions: what to start next, what a readiness
    signal releases, what happens when a process ends (restart limits, blocking of
    hard dependents), and the order of processes at shutdown;
  - `check` — the migration audit and the preflight of `flint-ctl check`;
  - `fstab`, `pid1` — what to mount at boot and with which flags, what to detach at
    the end, tmpfiles.d directories, halt or reboot;
  - `cache` — the manifest of parsed definitions kept between boots;
  - `catalog`, `config`, `ctl_proto`, `scaffold` — the catalog listing, `%U`
    expansion, control-socket answers and scaffold generation;
  - `text` — string utilities with specifications (splitting, trimming, sorting).
- `tests/` — tests of the library.
- `app/` — `flint-init`, `flint-ctl` and `flint-watch` (one executable, chosen by the
  name it runs under): file and socket I/O, fork/exec/waitpid, inotify, mounts, and
  the serde copies of the library's types.
