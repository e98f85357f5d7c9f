# atracdenc_core

The integer side of an ATRAC1, ATRAC3 and ATRAC3plus encoder, verified with Verus:
bit allocation, entropy coding, frame writing, tone tracking, gain curves, PCM
scheduling and the AEA, OMA, RIFF, RealMedia and raw containers.

- `src/` is the library. Its contracts speak of sequences of bits and bytes, and each
  format has laws, public proof functions named `law_*`, that say what a reader gets
  back, what fits in a frame and what stays unchanged.
- `app/` is the program: argument handling, WAV files and the floating-point work
  (filter banks, transforms, psychoacoustics). It hands the library integers and order
  keys, and takes decisions and bytes back.
- `tests/` runs the library on concrete values.

A float enters the library only as an order key: an `i32` that sorts as the float does.
