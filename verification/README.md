# tifflin

Verified core logic of the Tifflin kernel's ARMv7 support code and of its user-mode
loader, written in Verus.

- `src/divmod.rs` — the EABI division helpers (`__aeabi_uldivmod` and friends),
  proved to compute quotient and remainder.
- `src/console.rs` — UART output: strings, hexadecimal numbers and hex dumps, with
  the transmit register modelled as the bytes written to it.
- `src/virt.rs` — the short-descriptor page tables: mode/flag encoding, the window
  of temporary mappings, table lookup and allocation, `map`, `reprotect`, `unmap`
  and `get_info`, with laws relating them.
- `src/loader.rs` — the argument area that carries a new process's binary path and
  arguments, and the proof of what a new process reads back.
- `src/irqs.rs` — the IRQ binding table and the worker pass that runs handlers.
- `src/queue.rs` — a FIFO queue kept as a linked list with head and tail links,
  its entries in a table whose freed slots are reused.
- `src/backtrace.rs` — fault status names, abort register state and the decisions
  of the backtrace walk.

`app/` holds the platform glue that Verus does not see: the memory-mapped UART,
coprocessor operations, exported runtime symbols, the process-spawning and IRQ
worker plumbing, and abort logging.
