# teslacam

A verified library for Tesla dashcam (TeslaCam) footage, with a thin
desktop layer around it.

`src/` (verified with Verus):

- `bytes`, `mp4` — big/little-endian reads, the walk over the top-level
  MP4 atoms, the `moov` sample tables (`mvhd`, `stsz`, `stts`), sample
  start times and the movie duration.
- `nal`, `proto`, `encoding`, `sei` — H.264 emulation-prevention removal,
  the protobuf payload of Tesla SEI user-data units, a decoder for the
  telemetry message (with the law that it reads back what an encoder
  writes), and the telemetry records of a file timed by video sample.
- `scanner`, `timestamp`, `text` — clip file names, event kinds, clip
  timestamps and their gaps, and the character-level helpers they use.
- `clips`, `sessions` — grouping clip files into event folders and
  timestamps, splitting recent driving into sessions (gaps over 65 s),
  building events and counting them.
- `period` — the date ranges of the weekly, monthly and all-time
  driving summaries and of the periods they are compared with.
- `report`, `events` — labels used by the event report, the cameras of a
  surround-view export, and the kinds of detected driving events.

`app/` holds the database, file and directory access, ffmpeg export, and
the rules that work on floating-point telemetry values.
