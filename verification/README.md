# morph

Synthesizes a turtle program that redraws a black-and-white image, by MCMC
search over a small command language.

- `src/` is the verified library: the 256×256 canvas with the decoding of
  the target image into it (`canvas`), the command
  language with its random proposals (`dsl`), the pen interpreter that turns a
  program into moves (`interpreter`), and the overlap counts behind the
  Jaccard fitness (`fitness`). Random numbers come from `rand`'s `StdRng`
  through the small wrappers in `random`.
- `app/` is the program around it: reading and writing image files, the floating-point geometry
  of strokes and the Jaccard ratio, and the threaded, timed search.

Usage: `morph <image> [time_secs=60] [chains=1]`; set
`MORPH_CHECKPOINT_SECS="60,600"` to save best-so-far snapshots.
