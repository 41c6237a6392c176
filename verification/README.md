# rwc

An obfuscator for Rusted Warfare unit files (`.ini`), written in Verus.

Each unit file is split into three files: a main file that keeps the keys the
game must read as they are (names, tags, messages, ...) together with its images
under new random names, a data file that holds every other value under a random
section and key made of the characters `I`, `l` and `1`, and a config file that
points at each of them with a `${section.key}` reference. The main file's
`copyFrom` names the data and config files.

## Layout

- `src/text.rs` — trimming, searching and replacing on characters.
- `src/maps.rs` — the `hashbrown` maps that hold a file, behind wrappers.
- `src/ini.rs` — the `Ini` type, the line reader and the file's text.
- `src/inherit.rs` — `copyFrom`: which files a unit builds on, merging them, and
  the step-by-step work of completing a unit (the caller reads each file it asks for).
- `src/names.rs` — random names in base 3.
- `src/code.rs` — which keys stay, image paths, `${...}` references.
- `src/coder.rs` — the obfuscator, entry by entry, and what it guarantees.
- `src/reread.rs` — a file's text reads back as the same file.
- `app/main.rs` — the command line and everything that touches the disk.

## Use

```sh
rwc -i <input file or folder> -o <output folder> [-r <mod root>]
```
