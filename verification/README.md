# pixel_agents_tui

The terminal client of Pixel Agents: it connects to the Pixel Agents daemon,
shows the office with its agents as pixel-art characters in the terminal
(half-block cells, or Kitty / iTerm2 / Sixel images), and shows an agent's
live terminal when it is focused.

- `src/` is the library, written in Verus and verified: the daemon wire
  framing and messages, the asset store and sprite pipelines (Kitty, iTerm2,
  Sixel, half-block and braille rasterizers, outlines, bubbles, character
  frames), the office grid, seats, path search and roster, the terminal's
  probe replies and the capability decisions, key and mouse encodings, the keymap, and the
  session state machine with its reconnect back-off.
- `tests/` exercises the library on concrete values.
- `app/` is the program around it: terminal and socket I/O, the event loop,
  JSON (de)serialisation, and the floating-point parts (character movement,
  hue shifts, the spawn effect, world-to-screen placement, the fractional
  cell size that iTerm2 reports).
