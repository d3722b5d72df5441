# mangobar

A small bar for the mangowc compositor: workspace tags on the left, a status
line (volume, keyboard layout, clock) on the right.

- `src/` is the verified library (Verus): text primitives (`text`), the status
  line (`status`, `clock`), reading `mmsg` and `wpctl` output (`tags`,
  `layout`, `volume`), the tag decisions of the bar (scrolling, shown tags,
  IPC frames in `tags` and `ipc`), the command line (`args`), the `mmsg`
  arguments (`commands`) and the log filter (`logs`).
- `app/` is the program around it: GTK4 and layer-shell, the Wayland IPC
  connection, the tokio tasks that poll `mmsg` and `wpctl`, and the clock.
- `tests/` exercises the library on concrete inputs.
