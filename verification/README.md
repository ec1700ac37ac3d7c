# fw-fanctrl-loop

Closed-loop power control for a laptop with one CPU and one discrete GPU. The
loops hold the temperatures at which the fan daemon's curve keeps the fans at
the speed that the user asked for, by capping the CPU's sustained power and the
GPU's clock.

- `src/` is the verified library: number arithmetic, the loops, and the
  controller as a state machine. Quantities are `Num`, binary64 numbers whose
  arithmetic is specified and proved here, rounding included.
- `app/` is the program around it: it reads sensors, moves actuators, keeps
  files and runs the thread, and hands the library plain values.
- `tests/` run the library, with doubles for everything around it.

A controller call is a sequence of turns. Each turn ends with a `Next` (or a
`Request`, for a command): what has to be done on the machine before the next
turn. `Order`s are done in passing; nothing depends on how they go.

What holds across functions stands beside them as public proof functions:
`precision.rs` for the arithmetic, `windup.rs` and `spending.rs` for the budget,
`line.rs` for the clock table, `device_loop/laws.rs` and `device_loop/numbers.rs`
for a device's loop, and `laws.rs`, `between.rs`, `trips.rs`, `draws.rs`,
`nvme.rs` and `nvme_turns.rs` under `controller/`.
