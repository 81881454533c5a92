# bpm_object

An AviUtl2 plugin that keeps the editor's BPM grid in step with a "BPM object"
placed on the timeline, and reads tempo maps from MIDI files.

- `src/` is the library, verified with Verus:
  - `midi.rs`: the tempo map of a Standard MIDI File, computed exactly in
    integers (tempos in microseconds per quarter note, times in
    tick-microseconds) from what `midly` reads; with the laws that the map
    starts at tick 0, is ordered, states at each entry the tempo in force, and
    gives each entry the time that the tempos in force add up to.
  - `watcher.rs`: the decisions of the watcher thread (a state machine from
    event to action) and of a grid update (which question to ask the editor
    next, and which object sets the grid), with the law that an update ends.
  - `filter.rs`: the BPM object and the names of its items.
- `app/` is the plugin around it: registration with AviUtl2, the watcher
  thread and its channel, calls into the editor, file reading, and the
  floating-point parts (seconds, BPM, the grid's multiplier).
- `tests/` runs the library on concrete values.
