# Newton's cradle

A physics toy with synthesized sound: a row of pendulums that swing and collide, metallic
clacks with a room around them, airy sweeps, dust, sparks and a shaking screen. The
arithmetic, the physics, the sound synthesis, the settings and the frame logic are a library
that is verified with Verus; the window, the loudspeaker and the settings file are a small
program around it.

## Layout

- `src/` is the library.
  - `rounding`, `float`, `root`, `vector` compute with single-precision numbers by their
    bits. A result is specified as the number nearest to the exact one.
  - `exact`, `bounds` and `order` say where no rounding happens, how large results can get,
    how far off they can be, and which operations keep the order of numbers.
  - `cradle`, `dust`, `sliders`, `scene`, `captions` and `session` are the toy: the row of
    balls, what an impact kicks up, the controls, the list of shapes on the screen, the words
    on it, and how keys, the mouse and time change a running session.
  - `noise`, `click`, `reverb`, `whoosh`, `wav` and `bank` make the sounds.
  - `text` and `config` read and write the settings.
  - `bank_laws`, `cradle_laws`, `room_laws`, `session_laws`, `settings_laws`, `slider_laws`
    and `sound_laws` state and prove what holds of the whole.
- `app/` is the program: it reads keys and the mouse, evaluates sines, exponentials and the
  like, draws random numbers, plays sounds and paints shapes.
- `tests/` runs the library, number by number against the machine's own arithmetic.

## A frame

The program asks the session in this order: `take_rebuild`, `leave`, `press_keys`, `use_mouse` (and
`drag_to`), `fit_buffers`, `frame_times`, then `swing` and `knock` once for each of
`SUBSTEPS` steps, `strike` (and `kick_up_dust`), `rush_past`, `pass`, `draw` and
`take_unsaved`.

## Keys

1 to 4 pull balls aside, R resets, Up and Down change the number of balls, M mutes, `-` and
`=` change the volume, `,` and `.` the time scale, Space pauses, Esc quits. Balls and sliders
can be dragged. Settings are kept in `~/.newtons_cradle.cfg`.
