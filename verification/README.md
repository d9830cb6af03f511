# Disk Flashlight

A disk space analyzer for Windows that shows a scanned directory as a
sunburst chart. The library in `src/` holds the parts that decide and
compute, each with a contract proved by Verus; `app/` is the window, the
Win32 calls, the threads and the floating-point drawing around it.

## Library (`src/`)

| Module | What it holds |
|---|---|
| `model` | The directory tree packed depth first, children sorted largest first; paths, lookup by path, the largest files under a folder |
| `scan::mft` | NTFS Master File Table: update sequence fix-ups, attributes, data runs, record parsing, extension records, linking records into a tree, the plan for streaming the table |
| `scan::walk` | What the directory walk makes of one listing: files with their allocated size, subdirectories, skipped links |
| `scan::win` | Drives as Windows reports them, and the choices made from that list (drive picker, `--mft` restart) |
| `scan::bytes` | Little-endian integers in byte buffers |
| `history` | Back/forward navigation history |
| `session` | How a rescan carries the history over, what a rescan targets, status texts |
| `settings` | Settings kept between runs, as text values |
| `ui` | State of the side panels (folder tree, largest files) and what a chart click does |
| `paths`, `format`, `utf16`, `icon`, `text`, `sums` | Command-line paths and quoting, size and number formatting, UTF-16, the `.ico` file format, helpers |

Properties that span several calls are stated as public proof functions whose
names start with `law_`, next to the functions they speak of.

## Building and checking

`verus` verifies `src/lib.rs`; the tests in `tests/` run the library with
cargo. The program in `app/` builds for Windows.
