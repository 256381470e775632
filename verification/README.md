# appopt

A daemon for Android that puts the threads of applications on the CPUs that a configuration says.
The library decides; the program around it reads files, calls the kernel and carries out what was
decided.

The library (`src/`) is verified with Verus:

- `config`: the rules and the JSON document they are read from; patterns and priorities.
- `config::cache`: the rules that are made up for applications without any, kept as a JSON array.
- `cpuset`: sets of CPUs, and the lists that name them.
- `process`: which processes and threads the rules are for, from what `/proc` shows.
- `binding`: what is to be done to put threads on their CPUs.
- `bpf`, `bpf::loading`: the maps and programs of the kernel, the rules they are given, what they
  report, and the steps that load them.
- `tracepoint`: what the kernel program does at its tracepoints.
- `runner`: the options and the rounds of the daemon.
- `document`: JSON documents as plain values. The `json` crate reads and writes them; the contracts
  of the four functions that call it are believed and not proved.
- `text`, `numeral`, `bytes`: texts, numbers in texts, numbers in bytes.

Functions whose names start with `law_` are proofs of what holds across several functions: that a
written list of CPUs reads back, that what is saved for a package is what is merged later, that a
pass over the threads leaves nothing to do for the next one, that loading loses no descriptor.

`app/` is the program. It holds no rules of its own.
