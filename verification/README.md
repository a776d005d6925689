# emskin

The logic of a nested Wayland compositor that hosts Emacs, verified with
Verus.

- `src/` is the verified library:
  - `wire`, `message`, `encode`, `roundtrip`: D-Bus message headers — the
    parser, the `METHOD_RETURN` writer, and the proof that a written reply
    reads back as what it was written with.
  - `ic`, `fcitx`: the input-context registry and the synthetic fcitx5
    replies built from it.
  - `key_cast`, `workspace_bar`: the key-cast strip and the workspace bar
    (state, layout, hit testing and integer pixel work).
  - `apps`, `focus`, `host_window`, `xwm`, `launch`, `ipc`, `geometry`:
    window bookkeeping and the decisions of the event handlers.
  - `clock`, `text`: the calls into std that the library trusts.
- `app/` is the program around it: logging, spawning Emacs, JSON for the
  IPC messages, and drawing with cosmic-text and smithay.
- `tests/` runs the library on concrete values.
