# cli_chat_core

A single-threaded CLI chat state machine for embedded targets, verified
with Verus. Records have fixed capacities and the persisted image a fixed
size; the history slots and the blocks written to storage are held in
`Vec`s.

- `src/types.rs`: `FixedString<N>` (bounded byte string), `RingBuffer<T, N>`
  (bounded history that drops its oldest item), `User`, `Message`.
- `src/utils.rs`: table-less CRC32, decimal printing and parsing.
- `src/serial.rs`, `src/storage.rs`: the `SerialPort` and `Storage` traits
  that a target implements, and the fixed-record layout of the persisted
  state (header, users, history, CRC32) with its decoder. The records are
  stored as they lie in memory on the target, so lengths, head, tail and
  count take 8 bytes on 64-bit targets and 4 on 32-bit ones.
- `src/state.rs`: `AppState`: the line editor, command dispatch, message
  history, persistence and factory reset; `src/state/render.rs` draws the
  ANSI split-screen viewport.
- `app/main.rs`: a host runner on a raw-mode terminal (crossterm) with a
  file as storage.

Every function in `src/` carries a contract over the views of these types,
and Verus proves each of them.
