# mpy_probe

A library for talking to MicroPython boards over a byte stream, written in Verus:
its behaviour is stated in contracts and proved. A command line tool sits on top.

## The library (`src/`)

- `connection`: the `Connection` trait and the record of what was exchanged over one.
- `session`, `protocol`: the raw REPL protocol. `session` says which exchanges each
  operation makes, `protocol` makes them.
- `session_laws`: what holds of every session, whatever the device replies.
- `python`, `hex`, `scripts`, `replies`: the scripts that run on a device and what
  their output means.
- `device`: files, directories and status on a device.
- `transfer_laws`: an upload leaves its data on the device, and what a device prints
  reads back.
- `directory_laws`: creating a directory creates those above it first, and doing it
  again changes nothing.
- `globs`, `filter`, `files`: glob patterns, which files count, and their sizes.
- `filter_laws`: comments and blank lines do not matter, and the patterns alone decide.
- `sync`, `remote`, `walk`: what a sync uploads and deletes, how two sides differ, and
  the walks over local and remote directories.
- `sync_laws`, `walk_laws`: a sync makes both sides equal, and walks keep to the rules.
- `tree_laws`: a finished walk has taken up every file that counts, once.
- `serial`, `terminal`, `cli`: reading from a serial port, the keys of the interactive
  REPL, and the rules and reports of the command line.
- `error`, `text`, `unicode`: errors, text, and UTF-8.

What the proofs rest on without proof: the few functions of `std` and `globset` that
`unicode`, `text`, `error` and `globs` declare with a contract, and that an
implementation of `Connection` does what the trait says.

## The tool (`app/`)

`mpy_probe` opens a serial port, reads and writes local files, and prints. Run
`mpy_probe --help` for its commands.

## Tests (`tests/`)

`values.rs` checks concrete values; `board.rs` runs whole operations against a
simulated board.
