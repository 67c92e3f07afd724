# flac_lite

A minimal FLAC frame decoder for a bare-metal target (the Game Boy Advance),
written and proved in Verus. It reads frames from a byte slice through a
bit cursor and writes PCM into caller-provided buffers; the decode path never
allocates.

## Layout

- `src/bits.rs` — the bit-level model (fields, two's-complement fields,
  coded numbers, the wasted-bits field, CRC-8/CRC-16) and `BitReader`.
- `src/format.rs` — sample-rate, block-size and channel-assignment codes.
- `src/residual.rs` — partitioned Rice and escaped residuals.
- `src/encoding.rs` — the residual encoder as spec functions, and the law
  that decoding gives back what it wrote.
- `src/subframe.rs` — subframe header, warm-up samples, CONSTANT, VERBATIM,
  FIXED and LPC bodies, and linear-prediction reconstruction.
- `src/stereo.rs` — left/side, side/right and mid/side recombination.
- `src/frame.rs` — frame header and the one-frame decode driver.
- `tests/` — behaviour tests, including whole frames produced by an
  independent packer written in the tests themselves.
- `app/` — the ROM entry point and a PCM playback wrapper over `agb`.

Each public function's contract is stated over a grammar of the bitstream
written as spec functions (`field`, `residual`, `subframe`, `frame_header`,
`frame_body`, …); the proof functions state the laws that tie them together,
such as the Rice fold being undone by unfolding, an encoded residual
decoding to the samples that went in, FIXED reconstruction following RFC
9639 Table 20, the stereo transforms being inverted by recombination, and
frames ending on byte boundaries. On a failure, every decoder states where
it leaves the cursor: at the start of the read that failed (reads are whole
or not at all), or after the field whose value was refused.

## Scope

The library stops at the frame. A caller locates each frame (by an offset
it keeps), parses the header with `FrameHeader::parse` and decodes it with
`decode_frame` into its own buffers. A container around the frames — a
manifest with magic, version, stream facts and a frame-offset index, the
encode profile checked against it, and a sequential decoder driven by it —
is not part of this crate: the document that defines its byte layout is
not available here, so there is no grammar to state and prove its parser
against, and a borrowed offset table of `u32` cannot be carved out of a
byte blob in safe code.
