# wallfacer

Demoscene effects projected onto a wall, around picture frames ("regions") that the
user outlines with the mouse.

- `src/` is the verified library (Verus): the pixel buffer and its drawing, blending and
  rotation primitives, textures and mip chains, procedural textures, the maze and fire
  simulations, snow piles, ink stains, the pipes' lattice walk, the noise hashes, the
  calibration editor's decisions, the main loop's session decisions, the remote-control
  command parser, region names and scene fingerprints. Each public function states its
  result in its `ensures`; the laws of the library are public proof functions beside the
  functions they relate.
- `tests/` runs the library on concrete values.
- `app/` is the program around it: the SDL2 window, the control socket, the MQTT
  chyron, scene files (serde), and the floating-point parts of the effects.
