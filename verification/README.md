# sonic-bridge

SonicBridge turns an audio track into an LLM-readable music descriptor
(LRMD): a Markdown report of tempo, key, style and a time-sliced table of
chords, dynamics, timbre and rhythmic activity. It also aligns two versions of
a piece with Dynamic Time Warping, runs batches over a directory, and plays
back `.alrc` appreciation lyrics in the terminal.

## Layout

- `src/` — the verified library (Verus). Everything symbolic lives here and
  is proved against its specification:
  - `text` — trimming, splitting and decimal parsing/printing on `Seq<char>`;
  - `renderer` — the `.alrc` format (time stamps, attribute blocks, header
    tags), stable ordering of segments, the active segment and the preview's
    clock and progress bar;
  - `alignment::dtw` — the warping path traced back through a table of DTW
    steps, with the proof that it is a monotone, continuous path between the
    two corners;
  - `pipeline` — cutting a track into segments (fixed steps, onsets, beats),
    merging neighbouring segments that read alike, and the single-track and
    comparative reports;
  - `onset` — thinning onset candidates to a minimum spacing;
  - `report` — reading a single-track report back (file name, duration,
    segment table), which the preview falls back on where an `.alrc`
    document leaves the title, the length or a segment's labels out;
  - `musicology` — pitch-class names, chord templates, key and pentatonic
    mode names;
  - `cli` — the command-line grammar;
  - `batch`, `config`, `paths`, `decoder` — report locations, XDG paths,
    the Unicode (NFC/NFD) spellings a typed path is looked up under, file
    selection and progress of batch runs, decoder settings.
- `app/` — the `sonic-bridge` program: decoding (symphonia), FFT (rustfft),
  all floating-point measurement and estimation, threads, files and the
  terminal. It calls the library for every decision listed above.
- `tests/` — tests of the library.
