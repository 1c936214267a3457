# hls-probe

A small probe for HLS streams, with a verified core. Point it at an `.m3u8` URL
and it tells what is in there and whether it is healthy: the variant ladder,
audio and subtitle renditions and i-frame playlists, conformance findings,
measured segments, the lag of a live edge, and the price of a CDN cache miss.

## Layout

- `src/` is the core, verified with Verus. It does no I/O.
  - `playlist`: playlists as plain data, and their parser
  - `analyze`: conformance checks on media and master playlists
  - `fetch`: request headers and URL resolution
  - `measure`: which segments to sample, and what the responses tell
  - `live`: how a live playlist advances, and how far it lags
  - `edge`: the CDN edge test
  - `report`: reports as lines of text, and the exit code
  - `double`, `single`, `number`: IEEE 754 numbers, on bit patterns
  - `timing`, `clock`, `text`: elapsed time, dates, text
- `tests/` runs the core with the outside crates linked.
- `app/` is the command line program around it: HTTP, sleeping, printing, JSON.

Durations, times and bit rates are IEEE 754 numbers: segment durations are
binary32, everything computed from them is binary64. Both are held as bit
patterns, and the arithmetic on them (rounding, ties to even, infinities, NaN,
decimal text) is written on integers and proved against its definition on the
exact values. The tests hold it against the machine's own, bit for bit.

What is not proved: the playlist parser, URL resolution, the calendar and the
header map come from outside crates. The functions that call them are marked
`external_body`, and the comment above each says what is assumed of it.

Exit codes: `0` clean or warnings only, `2` at least one error-level finding,
`1` network or parse failure.
