# org3d

Organise and browse 3D print files: index 3MF and STL models, show them in a web gallery, group
them into projects, rename them after what they say of themselves and extract the archives they
come in.

- `src/` is the library: every decision, format and text of the program, written in Verus and
  proved against its contracts. The modules `text`, `lists`, `numbers`, `unicode` and `paths` are
  the ground the others stand on; `xml`, `json` and `archive` hold what is taken on trust from the
  parsers and the ZIP reader; `formats`, `bounds`, `scanner`, `autogroup`, `rename`, `extract`,
  `settings`, `db`, `server` and `updater` are the program.
- `app/` is ordinary Rust around the library: the command line, the disk, the database connection,
  the web server, the desktop window and floating-point arithmetic.
- `tests/` runs the library.

Coordinates and dimensions pass through the library as text or as the bits of IEEE 754 numbers.
The desktop window is compiled with `--cfg desktop`.
