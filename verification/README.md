# pumpkin_wire

The verified core of a Minecraft server's item-slot codec, its
`setworldspawn` command and its data-component table generator.

- `src/wire.rs` — VarInt, big-endian `i32`, booleans and raw bytes: a reader
  over an owned buffer, writers that append to a `Vec<u8>`, and the
  round-trip lemmas of each encoding.
- `src/version.rs` — Java releases and the switch to the newer
  data-component numbering at 26.1.
- `src/component.rs` — the data-component registry (current and older wire
  ids).
- `src/item.rs` — item stacks with component patches, and the item-id table
  with its renumbering for older clients.
- `src/slot.rs` — the plain, length-prefixed, template and item-cost slot
  forms; their readers, whose contracts give each failure's text and where
  the reader stops; the decoder interface for component values; and the
  round trips of both forms.
- `src/hash.rs` — hashed slots as clients send them, and their comparison
  with a stack.
- `src/text.rs`, `src/command.rs` — chat messages, decimal numbers and the
  `setworldspawn` command tree, executors and messages.
- `src/firework.rs` — the firework rocket item and the rocket it shoots.
- `src/names.rs` — custom and item names from their NBT tags.
- `src/codegen.rs` — the rows of the generated `DataComponent` enum, read
  from the JSON dumps of both numberings, one per name, forming a registry
  table without shared ids.
- `app/` — file reading and token emission for the generator, and the
  floating-point side of `setworldspawn` and of the firework rocket.
