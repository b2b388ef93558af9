# taproot

The verified core of a small C runtime library for Linux: the parts of a
`libc.so.6` that decide and compute, proved with Verus, and the C entry
points around them.

`src/` is the library. Each module states its behaviour over mathematical
models (`Seq`, `int`, spec functions) and proves it:

- `printf`: the format parser (flags, width, precision, length modifiers,
  conversions, `%%`), the order in which a directive fetches its arguments,
  and the integer argument types and their digits.
- `scanf`: one step of the `sscanf` scanner at a time: literals,
  whitespace, `%d %u %i %o %x %X %p %s %c %n %%`, suppression, widths and
  length modifiers.
- `maps`, `status`, `environ`: the `/proc/self/maps`, `/proc/self/status`
  and `/proc/self/environ` texts behind `dladdr`, `dl_iterate_phdr`,
  `getresuid`/`getresgid` and `environ`; `elf`: the ELF header fields that
  locate an object's program headers.
- `exec`: the `PATH` search of `execvpe`; `decimal`: decimal text and the
  `/proc/self/fd/<fd>` path of `fexecve`.
- `sync`, `keys`: the decisions of mutexes, condition variables,
  semaphores, barriers and thread-specific keys.
- `fcntl`, `io`, `sort`: `fcntl`/`lockf`/`open`, `ioctl`, directory records,
  `getdelim` buffers, and the insertion sort of `scandir`.
- `wide`: the C locale's wide-character and multibyte functions.
- `syslog`, `report`: the log mask, and the memory stress program's report.
- `fortify`: the bound checks of the fortified `printf` family.

Laws that span several functions are public proof functions named `law_*`.

`app/` holds the `extern "C"` functions: they read raw memory, make system
calls, keep state in atomics and thread-local storage, and call the library
for the decisions of the logic above. The formatting of `printf` output and
the C-variadic entry points are not part of the crate. `tests/` runs the library on concrete values.
