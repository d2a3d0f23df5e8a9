# nadt

A decoder for NCM music files, and the decisions of the desktop application
around it, written and proved in Verus.

- `src/` is the library. Every function states in its contract what it returns,
  over mathematical models of bytes and texts. What the library takes from
  `aes`, `base64`, `serde_json`, `chrono` and from the standard library's lossy
  decoding and lower-casing stands behind small wrappers whose doc comments say
  what is relied on.
- `app/` is the application: files, threads, notifications, the window. The
  window and the tray exist on Windows only.
- `tests/` runs the library on concrete values.

The main laws are the public proof functions whose names start with `law_`.
