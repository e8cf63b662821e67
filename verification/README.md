# rustrecover

A file-recovery library for raw disk images and storage devices, written in
Verus: signature-based carving (JPEG, PNG, PDF, ZIP), extraction, device
listing from sysfs contents, and the decisions of a command-line tool and of a
desktop interface, each with a contract that Verus proves.

Layout:

- `src/` — the verified library.
  - `signature`, `matcher`, `window`, `source`, `scanner`, `extractor`:
    the carver. `scan_model` states what a scan computes; `scan_laws`,
    `scan_headers` and `window_laws` prove what it guarantees (every reported
    file opens with a header and closes, after it, with a footer of its kind;
    every header in the source is seen; no file is reported twice; windows
    are slices of the source and no short pattern is split between two of
    them); `scan_chunks` proves that the result does not depend on the
    chunk size for signatures of different kinds whose headers do not begin
    one another's and each occur at most once, and `scan_lone` gives the
    result itself for a single such signature.
  - `carved_file`: a file found by a scan, its size, and the name it is
    saved under.
  - `device`: the devices of `/sys/block`, from its entries as read.
  - `commands`, `hexdump`, `validation`, `text`: what the command-line tool
    decides and prints.
  - `app_state`, `locale`, `notification`, `log_capture`: the state machine
    and strings of the desktop interface.
- `app/` — the command-line program: argument parsing, files, devices,
  progress bars.
- `tests/` — tests of the library on concrete values.
