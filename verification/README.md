# tomasulo

A cycle-level simulator of Tomasulo's algorithm, verified with Verus.

A program is a list of lines `MNEMONIC,operand,...` (`ADD`, `SUB`, `MUL`,
`DIV`, `LD`, `JUMP`; registers are written `F<n>`, literals in hexadecimal).
Each cycle writes back finished instructions over the common data bus, hands
out functional units to ready reservation stations in the order they became
ready, issues the instruction at the program counter (`F32`) and lets issued
stations pick up operands from the bus.

Layout:

- `src/instruction.rs`, `src/reserve_station.rs`, `src/common_data_bus.rs`:
  the parts of the machine, each with its mathematical view.
- `src/parse.rs`: reading program lines.
- `src/semantics.rs`: the model of the whole machine and of each phase of a
  cycle, and the invariant it keeps.
- `src/platform.rs`: the machine itself; every operation is proved to act on
  its view as the model says.
- `src/queue.rs`, `src/laws.rs`: the order in which functional units are
  handed out, and properties proved over whole runs (units are never
  over-committed, the register status table stays sound, recorded cycles are
  never overwritten, a finished machine stays put).
- `src/timing.rs`: the cycles recorded on each instruction agree (write back
  one cycle after execution ends, execution at least a cycle after issue).
- `src/progress.rs`: a program that never writes the program counter runs to
  its end within a bound on its work left.
- `app/main.rs`: reads a program from standard input and prints every cycle.
