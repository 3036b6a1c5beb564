# archr_flasher

Writes Arch R images to SD cards for handheld consoles and sets up the display
overlay that a given panel needs.

- `src/` is the library. Every function states its behaviour in a contract that
  Verus proves. It reads and writes flattened device trees (`tree`, `blob`,
  `dtbo_builder`), customizes and generates panel overlays (`panel_config`,
  `panel_laws`, `dtb_to_overlay`, `panels`, `overlay`), reads a file out of a
  FAT32 image (`fat`), chooses and checks releases (`github`, `digest`), and
  decides each step of a flash run (`flash`, `flash_job`, `flash_linux`,
  `flash_macos`, `flash_windows`, `flashwrite`, `rawwrite_unix`). `bytes`,
  `text` and `diaglog` hold what the others share.
- `tests/` runs the library on concrete values.
- `app/` is the desktop program: windows, files, devices, downloads and
  processes. It asks the library what to do next and reports what happened.

Device tree parsing and message digests come from the crates `fdt`, `md-5` and
`sha2`. What the library believes of them is stated at the functions of `blob`
and `digest` that call them; `text` does the same for the few functions of the
standard library that Verus has no contract for.
