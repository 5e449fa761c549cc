# gcode_editor

A G-code editing component. The library (`src/`) holds the logic, verified with
Verus; `app/` is the egui front end that draws it.

- `text`: UTF-8 widths, the lines of a text (as `str::lines` yields them), and the
  mapping between byte offsets and (line, column) positions.
- `tokenizer`: the line tokenizer used for syntax highlighting.
- `highlight`: the palette entry of each token and the coloured pieces of a text.
- `editor`: `EditorState` — selection, active line and marked error ranges.
- `display`: what one UI pass paints and reports: selection and error row spans,
  the scroll request, gutter clicks and change events.

Colours are RGBA floats and stay in `app/` (`SyntaxColors`, `EditorAppearance`),
together with everything that calls egui.
