# lib — verified lossless byte codecs and glyph trainers

A Verus library: every executable function in `src/` carries a contract
over mathematical models (`Seq`, `Map`, `int`) and is proved by Verus.

- `coder`, `bitmodel` — the 12-bit binary arithmetic coder and the generic
  byte loop over a bit model; decoding what was encoded gives the bytes back.
- `pilot`, `mix`, `lzp`, `dirmix`, `expand` — context models (order-2,
  logistic mixing, match model, directional mixing, forty-direction
  expansion) and their archives, each with a round-trip law.
- `ladder`, `ladder_codec` — the four-band quantising ladder archive.
- `glyph`, `bitpack`, `prism`, `order` — glyph streams, bit packing, seeded
  permutations and the eight reversible A-views.
- `sha`, `wire`, `fold`, `unified` — SHA-256, little-endian fields, order-free
  digests, leaves, epoch roots and the group gate.
- `pm`, `lz`, `train` — the epoch predictor, the LZ container and one body
  of the unified trainer.

`app/` is the command-line front end (file I/O and report rows);
`tests/` runs the library on concrete inputs.
