# mcap2vid

Extracts video from MCAP robotics recordings into H.264 MP4 files, keeping
each frame's ROS2 timestamp in a custom `FTSS` atom, and exports camera
calibration and transforms as JSON. Recordings can be read from local files or
from S3-compatible storage, where only the summary and the chunks of the
requested topic are downloaded.

Layout:

- `src/` — the library, verified with Verus: message decoding (ROS2 CDR,
  Foxglove protobuf), topic listing and frame extraction over an MCAP message
  stream, summary and chunk parsing, S3 URL handling and request signing,
  raw-image conversion, frame checks and the FTSS atom. Calls into outside
  crates (`mcap`, `byteorder`, `lz4_flex`, `zstd`, `image`, `sha2`, `hmac`,
  `hex`) go through small trusted wrappers whose contracts say what the crate
  documents.
- `app/` — the command-line program: argument parsing, file and network I/O,
  the FFmpeg subprocess, parallel decoding and the floating-point parts
  (frame rate, Unix timestamps as `f64`).
- `tests/` — tests of the library.
