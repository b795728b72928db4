# PromptRail

PromptRail captures the plaintext that programs hand to `SSL_write` and get from
`SSL_read`, with eBPF uprobes on `libssl`, and reports it together with the process,
thread and user that it belongs to.

`src/` is the logic of the agent, verified with Verus:

- `event`, `direction`, `stat`: the records between kernel and daemon.
- `capture`: what the probes do with a call, from its entry to its return.
- `report`: what the daemon prints of a record and of the counters.
- `proc_watch`: which TLS library a process uses, and where `libssl` lies.
- `elf`, `pattern`, `disasm`: finding `SSL_write` in a stripped, statically linked
  binary: the image, the instructions that load the address of an embedded path, and
  the functions around them.
- `harness`: the decisions of the load generator.
- `text`, `le`: texts, numbers and little-endian fields.

`app/` is the program around it: the eBPF programs, the daemon (`promptrail`) and the
load generator (`promptrail harness`). `tests/` runs the library on concrete values.

The daemon loads the eBPF programs from the file `promptrail-ebpf` beside its binary.
Nothing here builds that file: `app/probes.rs` is type-checked with the daemon, and
the library it calls uses the standard library, which a BPF target does not have.
`aya-build` stands in the manifest to hold the build dependency of `aya-ebpf` to a
version that the compiler takes.

Two kinds of outside code are believed rather than proved, each in one small function
whose comment says what is claimed: the x86 decoder of `iced-x86`, and three functions
of the standard library (`String::from_utf8_lossy`, `String::push` and the sort of a
slice).
