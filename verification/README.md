# bilidm

A terminal viewer for Bilibili danmaku (bullet comments): it finds the BV
identifier in its argument, fetches the video's danmaku segments, subtitles
and audio, and scrolls the danmakus across the terminal while the audio plays.

The library under `src/` holds the logic, verified with Verus:

- `varint`: protobuf varints and field skipping;
- `danmaku`: danmaku elements and segments, and ordering danmakus by time;
- `bvid`: finding a BV identifier in the input;
- `text`: lossy UTF-8, character widths, prefixes and decimal numerals;
- `screen`: where danmaku characters land on a row, the progress label, keys;
- `api`: request addresses, the replies read, and the subtitle and audio
  stream chosen;
- `fetch`: the steps of the danmaku, subtitle and audio fetches;
- `cli`: the command line.

`app/main.rs` is the program around it: HTTP requests, JSON, audio output
and the terminal loop, whose positions and times are floating point.
