# mosh_proto

The pure layers of a mosh (mobile shell) client, verified with Verus:

- `src/wire/`: the proto2 codec for mosh's transport, user and host messages.
  Decoders take any bytes and return a value or an error.
- `src/fragment/`: instructions encoded, compressed whole and cut into numbered
  fragments; ids that change only with an instruction's header or the MTU;
  reassembly in any order, with duplicates, under size caps.
- `src/bootstrap/`: the `mosh-server new` command line with its shell quoting, and
  the parser of `MOSH SSH_CONNECTION` and `MOSH CONNECT` lines.
- `src/text.rs`: lines, words and decimal numbers over sequences of characters.

The modules named `*_laws` state what holds across functions: what is encoded is
decoded again, unknown fields are skipped, an encoding that is cut off is refused
or decodes to the fields before the cut, fragments give back their instruction
whatever order they arrive in and whatever came before, the shell sees the
arguments as they were.

Two things are trusted: `flate2` for zlib (`src/fragment/zlib.rs`) and
`String::push` of the standard library (`src/text.rs`).

`app/` wraps the error types for callers that need `std::error::Error`.
