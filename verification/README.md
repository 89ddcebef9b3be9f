# blurscreen

A window that shows the screen, strongly blurred. Sharing that window in place of the
screen shows others that something happens: what they see is made of a picture reduced to a
few averaged pixels, and of nothing else.

The library under `src/` is verified with Verus:

- `frame`, `reduce`, `blur`: a captured frame is reduced to a few averaged pixels, hashed
  and blurred. `reduction_laws` states what a reduction keeps and what it loses.
- `scale`, `draw`: the small picture is enlarged and painted, letterboxed, into the window.
- `settings`, `shared`, `config`, `keys`, `title`, `window`: the choices of the user, the
  settings file, the keys, the title and the window's events.
- `capture`, `pump`: the capture loop and the pump of one stream, as steps from an event to
  what is to be done next. `capture_laws` states what holds of every run.
- `text`: characters and decimal numbers.

`app/` is the program round it: the window, the screen capture, the settings file on disk,
and the floating point measures by which a picture is fitted to a window.
