# midimi

A desktop MIDI player (Tauri, rustysynth, cpal) whose core is verified with Verus.

- `src/` — the verified library `midimi`:
  - `smf`: the plain model of a Standard MIDI File and the trusted items around `midly`, which decodes the bytes;
  - `timebase`: exact tick-to-time conversion (tempo map, timecode), kept as integer time units plus units per second;
  - `midi`: the note timeline (`parse_midi`): pairing Note On/Off, hanging notes, track names, title, duration;
  - `sort`: the stable ordering of notes by onset (merge sort);
  - `synth`: loading the sequencer's MIDI file and soundfonts through `rustysynth`;
  - `rsguard`, `sfguard`: which MIDI and soundfont files `rustysynth` reads without failing hard, checked before each load;
  - `player`: the decisions of the render thread;
  - `analysis`: which FFT bins form each spectrum band;
  - `library`: soundfont and settings rows, soundfont lookup and naming, the Unix clock.
- `app/` — the Tauri shell: commands and file reading, the Turso cache, audio output, the FFT and every floating-point step.
- `tests/` — tests of the library.
