# GameReader core

GameReader reads a game's subtitles off the screen with OCR, finds the
subtitle among the game's dialogue lines and plays the recorded line.  This
crate is its verified core, written in Verus: every function in `src/` carries
a contract that Verus proves.

## Layout

- `src/` — the verified library:
  - `capture`, `region`, `resolution` — capture regions, BGRA frames, stacking
    and resampling of frames, the two configurable regions;
  - `preprocessing`, `ocr` — integer image operations on the way to OCR;
  - `text_grouping`, `text_filters` — text boxes into lines and paragraphs,
    the center-line filter and character-name removal;
  - `text`, `similarity`, `matcher`, `dedup`, `engine` — matching OCR text to
    dialogue lines (Indel and Levenshtein ratios), deduplication and the
    per-read matching step;
  - `hotkeys`, `actions` — hotkey parsing, dispatch and the actions they name;
  - `validation`, `presets`, `state`, `logging`, `audio`, `windows` —
    configuration checks, key-binding clean-up, recent presets, log
    histories, the audio queue and file lookup, window selection.
- `tests/` — tests of the library.
- `app/` — ordinary Rust around the library: preset files, the file system,
  floating-point image and audio work, and the glue that feeds OCR reads to
  the matching stage.
