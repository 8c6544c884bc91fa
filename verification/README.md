# wav_utils

Reading, writing and streaming of wav audio, with contracts that Verus proves.

- `src/layout.rs`: interleaved and channel-major samples.
- `src/codec.rs`, `src/array.rs`, `src/error.rs`: what the library relies on of
  the `hound` and `ndarray` crates, which decode and encode wav files and hold
  two-dimensional arrays. Contracts in these three files marked
  `external_body` are believed, not proved.
- `src/reader.rs`: whole files, and files read block by block.
- `src/writer.rs`: whole files, and files written block by block.
- `src/queue.rs`, `src/session.rs`, `src/lengths.rs`: the enhancement of one
  file as a state machine: what is read, resampled, run through the model and
  written next, and how long the output is.
- `src/verbosity.rs`: log levels.
- `src/laws.rs`: what the parts promise together, such as that a file is read
  back as it was written, and that a file written in blocks is byte for byte the
  file written as a whole.
- `app/`: the program. It opens files, scales samples between 16-bit integers
  and floating-point numbers, and performs what a session asks for. The model
  and the resampler come from the `df` crate.
