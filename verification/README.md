# hibiki

The verified core of a keystroke overlay with keyboard sounds.

- `src/domain`: display settings (positions, layer-shell anchors, defaults)
  and sound pack descriptions.
- `src/infrastructure`: sample buffers and playback positions, `/`-separated
  path handling used to keep sound files inside their pack, the listing and
  ordering of installed packs, and the reading of a pack's display name
  from its JSON description.
- `src/application`: start-up decisions and the typography service.
- `app/`: the program around the library: file system access, audio
  decoding and playback through rodio, serialisable settings records, and
  the conversion of anchors to gtk4-layer-shell edges.
