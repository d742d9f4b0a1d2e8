# psolve_cli

The command-line side of the `psolve` plate solver, with its own logic
verified by Verus.

- `src/` is the verified library:
  - `text.rs`: character-level string helpers (`trim`, decimal spelling,
    lenient UTF-8 decoding).
  - `cli.rs`: `--flag value` reading and the positional-argument scan of the
    native subcommands.
  - `astap.rs`: the ASTAP-compatible single-dash grammar, the echoed
    `CMDLINE=`, the `.wcs` pass-through header and the `-d` directory choice.
  - `cards.rs`: FITS header cards and the replace-by-key merge of a solution
    into a header.
  - `merge_laws.rs`: what the merge guarantees. For any solution: cards it
    neither replaces nor re-marks are kept in order (other `COMMENT` cards
    among them), and once it carries the solve marker exactly one marker
    remains. For a solution shaped as a solve writes one (keyed cards, a
    keyword possibly repeated, then the marker): merging it twice changes
    nothing and the marker is the last card.
  - `sidecar.rs`: the `.ini` and `.wcs` sidecar texts and 80-byte cards.
  - `fits_update.rs`: the byte-exact header rewrite of `-update` that keeps
    every pixel byte in place.
  - `catalog.rs`, `json.rs`: `psolve index` argument checks, `mirror.json`
    members, JSON escaping (which reads back to its input and leaves no raw
    control character).
  - `solve.rs`: catalogue budget, failure keeping, integer and `RA,DEC`
    flag values, and the quad interleave.
  - `ladder.rs`: the retry ladder after a failed solve (scale retry,
    matched-filter re-extraction, pair matching, tight radius): which rung
    runs, with which inputs, which outcome is kept.
  - `blind.rs`: the blind search's cluster budget, kept failure and texts.
- `app/` is the `psolve` binary: file and directory I/O, threads, the
  floating-point geometry, and the calls into the solver and index crates.
- `tests/` exercises the library.
