# mneueventlib

Filtering and binning of muon event data, with the decision logic proved
correct by Verus.

## Layout

- `src/` is the verified library. It decides which frames of an event file
  survive a set of time and sample-log filters (`filters/`, `coverage.rs`,
  `utils.rs`), holds the frame and run-length-encoded data models (`data/`),
  counts frames and periods (`stats.rs`, `run_info.rs`), addresses the filter
  sets of a batch by index or label (`batch/`, `batch_interface.rs`), and plans
  how work is split between the CPU and the GPU (`gpu.rs`, `histogram.rs`).
  Every function carries a contract over a mathematical model; the public
  `law_*` proof functions state properties that span several functions.
  The arrays of event data (frame starts, run-length-encoded values, periods,
  histogram counts) are held in the library's own types over `Vec`: they are
  read from HDF5 files in `app/` and handed over as plain values.
  Run start and end times are written with chrono from `src/run_info.rs`.
- `tests/` runs the library on concrete values.
- `app/` is the Python extension around the library: HDF5 reading and
  writing, the wgpu compute pipeline, the floating-point binning, and the
  Python classes. Verus does not see it.

## Checking

The library is verified with Verus; the tests run with `cargo test`.
