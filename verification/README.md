# BlinkView

A small folder-aware image and video viewer whose core is verified with Verus.

- `src/` — the verified library: natural file-name order and folder scanning
  (`natural`, `media`, `paths`), the bounded image cache with its generations
  and byte budget (`cache`), frame scaling (`render`), the command line
  (`config`), the single-instance protocol (`ipc`), login-startup plans
  (`startup`), thumbnails (`thumbnail`), `ffmpeg`/`ffprobe` helpers (`video`),
  the video player's tick and pause decisions (`player`) and the viewer state
  (`viewer`). Decoding and PNG encoding are done by the
  `image` crate behind small trusted wrappers.
- `app/` — the program around it: the `minifb` window loop, the decoder
  threads, the video player's wall clock and frame queue, sockets, files and processes.
- `tests/` — tests of the library.
