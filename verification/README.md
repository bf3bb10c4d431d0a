# dod_tools

Tools for Day of Defeat (GoldSrc) demos: the bit reader and writer of the
demo format, a few engine messages, and the transcoder that turns a GoldSrc
demo into a Xash3D IDEM container, with its validator, cutter and content-pack
planner. The library under `src/` is verified with Verus; `app/` is the
command-line front end (file and archive I/O, reports, and the floating-point
time and angle arithmetic).

Contracts are stated over spec functions in each module; the laws that span
functions are the `law_*` proof functions. Among them:

- `transcode_valid::law_transcoded_output_validates`: what the transcoder
  writes from a demo of 1 to 1024 sections, each holding a `NextSection`
  frame and keeping its network messages (as bytes or decoded), validates
  without an error.
- `cut_valid::law_cut_output_validates`: the same for what `cut` writes; the
  cut adds a `dem_stop` to every playback section that kept none, so only the
  signon section, which a cut keeps whole, must hold one.
- `cut::law_cut_keeps_terminator`, and `cut`'s own contract: every cut
  playback section ends up with a `NextSection` frame, and keeps only its
  `DemoStart` and `NextSection` frames and the frames inside the window (the
  frame kinds are read from the frames; the caller says only where each
  frame's time lies).
- `accept::law_accepted_files` and `accept::law_acceptable_files_pass`:
  validation, which reports on any byte slice, passes exactly on files with
  the IDEM header, a directory inside
  the file with 1 to 1024 entries, and each entry inside the file and split
  into well-formed frames that end exactly at its end, one a `dem_stop`.
- `bit::law_offset_is_length`: a bit writer's offset is the number of bits
  it holds.
