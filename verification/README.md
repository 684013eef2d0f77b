# ms_toolkit

A GPS log viewer whose data handling is a library verified with Verus.

The viewer loads GPS fixes from MultiSpeak-style `rxLocationReport` log
lines and from SYLK (`.slk`) spreadsheets, groups them into per-source
breadcrumb trails, removes consecutive repeated positions, rates each source
by its number of large jumps, and exports HTML and PDF reports. An SFTP
browser fetches remote files.

## Layout

- `src/` — the verified library
  - `text.rs`: lines, fields, trimming, prefixes, ASCII case folding, appending
    text
  - `number.rs`: the syntax of unsigned and floating-point literals that
    `str::parse` accepts, decimal rendering
  - `calendar.rs`: Julian Day Numbers to Gregorian dates (with the laws that
    the date is valid and maps back to its day number, and that consecutive
    day numbers give consecutive dates), Excel serial date-time text
  - `sylk.rs`: the SYLK cell grid, header columns, data rows, `parse_slk`
  - `logline.rs`: location-report lines (matched with the `regex` crate),
    `parse_log`
  - `track.rs`: fixes, grouping by source, removal of repeated positions
    (with its laws), counting of large jumps
  - `report.rs`: the HTML report
  - `viewer.rs`: jump severity and wording, ID order, ID filter, selection,
    status line, file kind
  - `sftp.rs`: SFTP messages, directory listings, and the SFTP worker's
    decisions as a state machine
- `tests/` — tests of the library, several of them against the standard
  library or the viewer's own rendering
- `app/` — the desktop program: the egui user interface, file and network
  I/O, PDF drawing, and every floating-point computation (coordinate values,
  the tolerance test for repeated positions, jump distances, Excel serial
  arithmetic), which reaches the library as predicates and plain values.

Floating-point decisions are passed to the library as predicates: for
example `parse_log(content, &moved)` removes repeated positions by asking
`moved(fix, last kept fix)`, and its contract is stated over those answers.
