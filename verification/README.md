# nacelle

The decisions of the nacelle UI toolkit, written in Verus and proved
against their contracts.

- `src/` — the verified library: the `.layaut` layout format (the whole
  file reader, its sections, the flexbox and rectangle grammars, the
  header, board renumbering, and the writer of a base, its per-screen
  sections and its boards), the instance list and its identities, the named layouts
  of a store, the glyph atlas packer, the channel board and clipboard
  seam, the colour notations of the picker, number grouping, the state
  ladder of a control, tooltip arming, the toast queue's duplicate
  check, number formatting, font family and file choice, data
  directories, the host/plugin link and what the host answers a plugin
  asking to see the terminal. Public `law_*` proof functions state the properties
  that span several calls.
- `tests/` — the library run on concrete values.
- `app/` — the process around it: environment and filesystem, process-wide
  state, font rasterisation with `fontdue`, the tooltip clock, and reading
  the numbers of a layout and of the decimal, HSV and HSL colour
  notations as `f32` and writing rectangles back with two decimals,
  the toast clock.

Not here: what computes in floating point (the flexbox solve through
`taffy`, drawing and tessellation, easing and animation, the OKLCH
colour arithmetic) and what reads the theme engine, which is not
part of this crate (the number readers, styles, and the default widgets a
layout with no placed base is filled with).
