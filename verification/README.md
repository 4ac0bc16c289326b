# subtitle_fast

Subtitle band detection on luma planes, with its contracts proved by Verus.

- `src/` is the verified library. Each module states what its functions
  compute over sequences and integers: thresholding a region of interest
  into a band mask (`mask`), bridging short gaps in rows and columns
  (`bridge`, `closing`), row projections and run-length connected
  components (`bands`, `runs`, `dsu`, `components`, `projection`), integral
  images and region measures (`integral`, `region`), candidate merging
  (`merge`), the luma-band detector and its detection stage (`detector`,
  `detection`), frame sampling in processing order (`sampler`), the integer
  stages of the subtitle presence test (`presence`), score-map components
  (`score_map`), frame dumps and their encoding (`dump`), model locations
  and cache names (`model`), decoder fallback and subtitle updates (`backend`), frames and
  CLI values (`frame`, `cli`, `sink`), and the pixel, text and session
  logic of the desktop front end (`gui`, `gui_text`, `session`), and the
  building of message text (`text`).
- `app/` is the program around it: argument parsing, file output, and the
  floating-point scoring stages.
- `tests/` runs the library on concrete inputs.
