# fantom

A librarian for Roland FANTOM data files (`.svd` scene banks and backups, `.svz` tone and sample
banks), written in Verus: every function of the library carries a contract that the verifier
proves.

- `src/` is the library. It works on bytes and plain values only: container framing
  (`container`), the area table (`address`), scene and tone decoding (`codec`, `model`),
  checks (`verify`, `diff`), what a file needs from its destination (`requirements`),
  repackaging scene banks (`repackage`) and tone banks (`tonebank`), lifting user tones out of a
  backup with the audio they play (`convert`) and building sample-only banks (`samplebank`),
  sound lists (`factory`), the sound library's values, the checks a file passes on its way in
  and the tones (`library`) and scenes (`scenes`) it offers, text output (`render`) and the
  command line's reports (`report`).
- `app/` is the command line around it: argument parsing, reading and writing files, printing.
- `tests/` runs the library on concrete files built in memory.
