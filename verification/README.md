# calx-telltale

A verified calculator for waits, interrupts-off windows, and the compositions
built out of them. Every number is an interval with a unit and a provenance;
a result carries the weakest provenance of anything it rests on; a count of
loop passes has no conversion to time; a frequency is a reduced rational.

## Layout

- `src/` is the library, written in Verus. Every function in it carries a
  contract, and Verus proves the bodies against them.
  - `interval`, `provenance`, `quantity`, `rate`, `source`: the arithmetic of
    counts, clocks and the register's derived base.
  - `expr`: compositions of waits, their evaluation at one latency, and the
    search for the latency at which the worst case is attained.
  - `interrupt`, `schedule`: latency and overrun verdicts, and fixed-priority
    response times.
  - `register`: the register's line format, stated as a grammar over bytes, and
    the reader proved to follow it.
  - `census`: reading function symbols out of an ELF image and loops out of a
    disassembly listing, each stated over bytes in the same way.
  - `text`: the byte-level reading those formats share.
  - `limits`: what the tool does not model, stated on every run.
- `tests/` exercises the library on concrete values.
- `app/` is the command line: reading files and printing what the library
  decided.
