# zygdrum

A three-voice FM drum synth for glitch and IDM percussion, played from the computer keyboard, the
mouse or a MIDI controller. Kick, snare and hihat have nine parameters each; drive, a bit crusher
and the volume are shared. Every control can be bound to a MIDI controller.

The library under `src/` is verified with Verus:

- `single`, `arith`: single-precision numbers by their bits: order, and results rounded to nearest
- `controls`, `notes`, `text`, `geometry`: names, note and key layout, columns and bars, rectangles
- `midi`: reading messages, choosing the input port
- `ccmap`: the text form of the controller bindings
- `panel`: the control panel: its state (`panel`), what keys (`panel::keys`), MIDI messages
  (`panel::messages`) and the mouse (`panel::mouse`) do to it, and what it looks like
  (`panel::screen`)
- `crush`: the bit crusher
- `engine`: settings and output block of the engine, layout of samples over channels
- `fft`, `ring`, `fourier`: the fast Fourier transform, and what it computes over a ring
- `capture`: envelopes and spectrograms

`app/` is the program around it: the terminal, the audio device, the MIDI input, the voices and the
master chain on fundsp, and the engine for the browser. `tests/` runs the library.
