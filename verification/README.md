# skipzone_app

The calendar, text, scheduling and corpus bookkeeping of the skipzone HF
propagation app, written in Verus and proved against their contracts.

## Layout

- `src/` — the verified library.
  - `clock` — proleptic Gregorian dates: leap years, month lengths, day
    numbers in both directions, weekdays, and the `YYYY-MM-DD` text the date
    field edits. Round trips between dates, day numbers and text are proved.
  - `text` — the small amount of text handling the rest needs: trimming,
    splitting, reading integers the way `str::parse` does, and writing them
    zero-padded.
  - `span` — the run of consecutive UTC days a calibration corpus spans, and
    the schedule of cycle censuses its negatives are drawn from.
  - `sampling` — thinning a list to a cap by a fixed stride.
  - `stations` — station bookkeeping: distinct calls, duplicate rows, and the
    fixed-point filter that keeps only stations seen often enough.
  - `census` — the negatives of one cycle-and-band census: the attempted paths
    that did not decode, each once, in a determined order.
  - `contents` — what a corpus contains: distinct and reciprocal pairs,
    repeated transmissions, and tallies by band, hour and day.
  - `compute` — how many worker threads a compute pool uses.
  - `antenna` — the antenna types on offer and which inputs each uses.
- `tests/` — tests of the library on concrete values.
- `app/` — what the library leaves to the application: the system clock and
  the hours-of-day fields, the `rayon` compute pool, the antenna pattern
  physics, and the floating-point glue around the corpus bookkeeping.
