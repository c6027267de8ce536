# Day Sketch

A vector drawing editor: rectangles, ovals, lines, pictures and nested groups on an unbounded
canvas, with a layer list, an inspector, undo, and SVG as what travels through the clipboard.

`src/` is the editor's logic, verified with Verus. It is generic over the numbers that a
drawing is measured in (`scalar::Scalar`); `micro::Micro` is exact in millionths, and an
application brings the numbers of its machine.

| Modules | What they hold |
| --- | --- |
| `node`, `scene`, `tree`, `ancestry`, `order` | the rows of a drawing, their tree and their stacking order |
| `ops`, `layers`, `motion`, `paste` | placing, grouping, arranging, moving, turning, pasting |
| `bounds`, `geometry`, `viewport`, `hit` | frames, turns, the view, and what the pointer is over |
| `canvas`, `snap`, `gesture`, `draw` | clicks, keys and drags, snapping, what holds of them, and what is drawn |
| `walks`, `turning`, `rigid`, `homing`, `zooms` | what holds of deletions, copies and hits, of turned groups, and of the view |
| `gauge`, `millionths`, `drift`, `homeward`, `likeness` | numbers that are read closely, and what holds of turned groups and of copies in any of them |
| `inspector`, `color`, `shown`, `bodies` | the fields of the selection, and that they show what was set |
| `svg`, `svg_write`, `travel`, `round_trip` | reading and writing SVG, and that a copy reads back |
| `clipboard`, `transfer`, `images`, `base64` | what is offered and accepted, and embedded pictures |
| `turn`, `document` | what one undoable step changed, and how drawings are opened and named |
| `scalar`, `micro`, `rotor`, `plane`, `sway`, `products`, `exact`, `text` | numbers, sines and cosines, steps in the plane, and text |

`app/` is the application around it, on the Day framework: windows, menus, the database that
a drawing is kept in, the system clipboard, and the undo history. `tests/` runs the library with
machine floats and with `Micro`.
