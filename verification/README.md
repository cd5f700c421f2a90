# gstoverlays

Layout and compositing logic of video analytics overlays, verified with
[Verus](https://github.com/verus-lang/verus): boxes, keypoints, segmentation masks and labels
that several GStreamer elements draw into one frame, the decoders that turn model tensors into
such metadata, and the chunking of a speech transcriber. A label that has a place clear of the
labels before it, of every box or marker of its element, and of what elements of its importance
or more have drawn is put in such a place; this is proved, for each overlay element and for the
compositor (`law_labels_take_unobstructed_positions`).

- `src/` is the library. It works on plain values; every function states in its contract what
  it computes, and the public `law_*` proof functions state what holds across functions.
  Floating-point numbers are carried as their bits (`scalar::Scalar`); where a step needs
  floating-point arithmetic, the caller hands it in as a closure, and the contract says how its
  results are used.
- `tests/` runs the library on concrete values.
- `app/` holds the GStreamer elements: they read metadata from buffers into the library's
  types, ask the library what to draw or attach, and do so. They need GStreamer, `skia-safe` and
  `burn`.

The one outside crate that the library calls is `byte-slice-cast`, in `src/words.rs`.
