# midi_driver

The verified core of the 120Pedal MIDI tools, checked with Verus.

* `src/` is the library: the MIDI status bytes (`midi_status`), the text
  primitives of the configuration grammars (`text`), the translator
  (`translate`, `midi_translate`), the command runner (`midi_command`), the
  Jack router (`midi_jack`), port choice and Program Change messages
  (`midi`), the pedal state helpers (`pedal_state`) and the decisions of the
  touch screen controls (`controls`).
* `app/` is the program around it: one executable whose first argument picks
  the tool (`read_midi`, `translate_midi`, `command_midi`, `jack_midi`), with
  the MIDI input (`midir`), standard input and output, the files, the Jack
  commands, the pedal state file (`serde_json`, `fs2`) and OSC (`rosc`).
* `tests/` exercises the library.

The touch-screen program (the window, its drawing and the tuner) is not part
of `app/`: it needs a graphics toolkit and draws from floating-point
positions and levels.  Its decisions stand verified in the library
(`controls`, and `SelectionMonitor` in `pedal_state`), but no program here
calls them; `tests/` exercises them.
