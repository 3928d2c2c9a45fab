# keyboard_synth

A polyphonic synthesiser played on the computer keyboard, verified with Verus.

- `src/` is the library. The audio side (`player`, `render`, `mixing`, `region`,
  `generator`, `effect`) turns commands into samples. The control side (`desk`,
  `gui`, `keys`, `screen`) turns key strokes and the mouse into commands.
  `command` is the ring between the two. `laws`, `mirror`, `session` and `lasting`
  state what holds of the library as a whole.
- `app/` is the program around it: the audio device, the keyboard, the mouse,
  the terminal and floating point.
- `tests/` runs the library with `f32` arithmetic.

There are three generators (sine, detuned saw, white noise) and three effects
(delay, hard clip, panning). There are no filters and no equaliser.

Samples, pitches and levels are `u32` words that hold the bits of an `f32`. The
library decides which operations are applied to which words and in what order;
the operations themselves are supplied by an implementation of `Arithmetic`.
