# BatchLapse

BatchLapse turns batches of videos into sped-up exports: MP4, WebM or animated GIF. Animations last
at most 30 seconds, run at 15 frames a second, are at most 960 pixels wide, loop for ever and have no
sound; where one has to meet a file size and does not, it is made again, at a lower frame rate
and with a limit to its shorter side.

- `src/` is a Verus library, `batchlapse`. It holds the rules of the program: which requests are
  refused and why, which part of a video is used and at what speed, the names of the exports and
  the search for a free one, the command lines of `ffmpeg` and `ffprobe`, the passes by which a file
  size is met, the one running job and its cancellation, the course of a batch, and the local
  control interface with its requests, answers and registry. Every function states its result, and
  the laws that span several functions are proof functions whose names begin with `law_`.
- `app/` is the desktop program around it: the window, processes, files, sockets, and JSON of the
  library's types.
- `tests/` runs the library on concrete values.

Double-precision numbers are held by their bit patterns (`double::Real`). The library compares them,
computes with them and writes them down in whole numbers; each sum, product and quotient is proved
to be the double nearest to the exact result.
