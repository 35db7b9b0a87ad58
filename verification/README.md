# capture_viewer

A live capture viewer for macOS: a window that shows a capture source (a
capture card, a camera) together with its audio, and can crop away the black
bars of letterboxed or pillarboxed pictures.

- `src/` is the verified library (Verus):
  - `bars.rs`: black-bar detection on BGRA frames, with its sampling rules
    stated exactly, and proofs that detected bars stay within bounds and that
    an all-black frame is not taken for padding;
  - `band_laws.rs`: what the detector reads of a frame (only the colour
    channels of the frame's pixels) and how it behaves when pixels darken,
    when the frame is mirrored, flipped or transposed;
  - `crop.rs`: crop insets as exact fractions, and the analysis state that
    applies a crop only after three consistent frames and discards frames of
    an earlier generation;
  - `devices.rs`: device-name normalization and the rules pairing an audio
    source with a video source;
  - `selection.rs`: how the selected sources follow the device lists, and the
    menus' check marks and tags;
  - `titles.rs`: the window title.
- `app/main.rs` is the application: the Objective-C runtime, AVFoundation and
  AppKit calls, and the window geometry, computed in floating point.
- `tests/` runs the library on concrete frames, names and selections.
