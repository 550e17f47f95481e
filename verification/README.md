# recall_cli

A note-taking tool for the terminal. Notes are kept in an Obsidian-compatible markdown file,
one checkbox entry per note with a blank line between entries:

```markdown
- [ ] 2026-03-29 14:30:00
deploy v2 before lunch

- [x] 2026-03-29 09:00:00
fix bug #42
```

## Layout

- `src/` is the library, verified with Verus:
  - `text`: trimming, lines, joining and number formatting;
  - `time`: dates and times, their formatting, and the calls into chrono;
  - `note`: a note, its markdown and how its lines are read back;
  - `storage`: a notes file cut into notes, sorted newest first, and written out;
  - `config`: notebooks, `~/` expansion and the configuration's error message;
  - `cli`: what the words of a command line ask for (`add`, `list`, a notebook, a note);
  - `tui`: the state of the note browser: rows, day headings, selection and keys.
- `tests/`: tests of the library on concrete values.
- `app/`: the program around it: command-line parsing, reading and writing files, and the
  terminal loop.

Usage: `r "note"`, `r add "note"`, `r list`, `r w "note"` for notebook `w`, `r w list`, `r w`
to browse a notebook, and `r` to browse the default notes file.
