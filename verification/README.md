# hipfire

Verified decision logic of an inference runtime, in Verus.

- `src/mrope.rs` frames a prompt that mixes text and images: the (t, h, w)
  rotary position of every token, and the rope delta that decode steps add.
  Besides the exact contract of the framing it proves, among other things, that
  framing a conversation at once and framing it turn by turn give the same
  positions.
- `src/ep/` decides how one layer program runs across several device ranks. A
  `LayerRun` asks for one step or one report at a time and never touches a
  device itself. `laws.rs` states what holds of every plan and every run: devices
  are bound before they get work, phases do not interleave, every rank takes part
  exactly once, and any error is final. `trace.rs` states what it means to run one
  program behind another.
- `app/` drives the devices: it performs the steps and reports back. It needs
  the runtime's device crates.
- `tests/` runs the library on concrete values.
