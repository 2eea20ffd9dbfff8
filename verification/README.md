# bio2_tools

Protocol, compression and encryption logic for the BIO2 I/O board family
(BI2A and BI2X firmwares), written in Verus with machine-checked contracts,
and a command-line program around it.

## Layout

- `src/` — the verified library.
  - `bi2a_protocol/` — BI2A responses (`command_response`) and the
    byte-at-a-time response decoder (`command_response_decoder`).
  - `bi2x_protocol/` — BI2X frames (length encoding, CRC-4/CRC-7,
    escaping, byte substitution, compression, encryption), commands and
    responses.
  - `compression/` — the MC_LZ codec (`inflate`, `deflate`) and the token
    model its proofs use.
  - `crypt/` — the BI2X payload scrambler and the byte chain of the
    firmware images in `libaio_iob.dll`.
  - `protocol/frame/` — host commands and flash-mode commands of a BI2A
    board, and their frames.
  - `reader/` — the link trait, an in-memory BI2A board emulator, and the
    serial link speeds.
  - `tools/` — the decisions of the tools: the flashing state machine, the
    board identification, the ROM dumper, MOT file generation, and firmware
    image extraction.
  - `text.rs` — text helpers and the few calls into `std` text formatting
    the library makes.
- `tests/` — tests run against the compiled library.
- `app/` — the command-line program: argument parsing, files, the serial
  port, and the loops that perform the flashing machine's actions.

## Contracts

Every public function states its result over spec functions (`spec_parse`,
`spec_inflate`, `spec_step`, ...). Laws across functions are public proof
functions, for example `lemma_frame_roundtrip` (a written BI2X frame parses
back as itself), `deflate`'s postcondition (its output is `spec_deflate` of
the input, and inflating it gives the input back), `lemma_inflate_limit`
(a lower output limit only cuts the output), `lemma_all_blocks_written`
(answered block writes go down the firmware one block at a time until the
first block is written), `lemma_three_failed_steps` (a state fails for good
at its third failed step), and `lemma_flashed_image` (the emulated board,
written every block of an image in any order, holds that image).
