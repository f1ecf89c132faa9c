# mind67

A keyboard-first mind map on a free, zoomable canvas.

`src/` is the library `mindmap`: the map and everything that is decided about it,
written in Verus and proved against the contracts that stand beside the code.

- `graph` is the map: labels and the caret, the tree, folding, selection, layout,
  copying and pasting, searching, and the repair of a map that was read from a file.
- `history` is undo and redo.
- `convert` and `export_svg` write a map as Markdown, OPML, an outline or a drawing,
  and read the first two back.
- `markdown` and `paint` say how a label is set and how nodes and edges look.
- `images`, `image_bank` and `hash` are the store of pictures and what of it is held
  in memory.
- `store`, `paths`, `sandbox` and `dev` say where things are kept and what a file
  that was read is worth.
- `ui` is what the window decides: the keyboard, the menus, gestures, searching, what
  a frame holds and when to save.
- `coord` holds coordinates as the bits of a floating-point number. Arithmetic on
  them is handed in by the caller.

The laws that relate several functions are public proof functions. They stand beside
what they are about, or in files named `laws`, `keeps`, `stays`, `settled` and `sound`.

`tests/` runs the library. `app/` is the window around it: painting, files, the
clipboard, and the arithmetic of the camera.
