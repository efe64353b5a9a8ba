# boundrs

A verified library for a bounding-box labeling tool for image datasets.

- `src/` is the library, verified with Verus: paths, datasets and their
  movements and class searches, comparing labelings, prediction folders,
  suggestions from several models, the box-drawing state machine,
  relabeling, tags and the image loaders' decisions. Laws that span
  functions are public proof functions named `law_*`.
- `tests/` runs the library on concrete values.
- `app/` is the window (egui/eframe), the command line and the file I/O,
  which hand plain values to the library.
