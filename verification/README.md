# Porda AI

Offline covers for people on the screen: a frame goes through a small network, what is found is cut
out along the windows in front of it, and an overlay paints a cover over the rest.

`src/` is the library: the rules, the arithmetic, the parsers and the state machines, each with a
contract that Verus proves. `app/` is the program around it: the desktop portal, the video stream,
the compositor, the network runtime, the tray, the window and the files. `tests/` runs the library.

| module | what it holds |
| --- | --- |
| `single` | single-precision arithmetic on bits |
| `text`, `path`, `ranking`, `channel` | texts, paths, stable sorting, sending |
| `vision` | rectangles, frames, colours, blur, covers, suppression, fitting |
| `inference` | the network's input and output, the detector |
| `overlay` | the painted buffer and the decisions of the drawing thread |
| `config` | the settings and where they lie |
| `platform` | shortcuts, the portal, capture, outputs, windows, system reports, the tray |
| `capture` | which windows are captured |
| `runtime` | the state of the program, the pipeline, commands and events |
| `systray`, `ui` | the menu of the icon, the window and what it shows |

Numbers that are fractions are kept by their bits (`single::Single`); the program turns them into
floating-point numbers where an outside library wants them. The exponential function is applied by
the program before the library decodes the network's output.
