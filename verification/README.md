# alass

Synchronizes subtitles to a reference subtitle or to the voice activity of a video, and reads,
changes and writes the common subtitle formats: `.srt` (SubRip), `.ssa`/`.ass` (SubStation
Alpha), `.idx` (VobSub index) and `.sub` (MicroDVD, and binary VobSub as a reference).

The library under `src/` is verified with Verus:

- `timetypes`: time points, time deltas and time spans in milliseconds;
- `formats`: the parsers and writers of every format, the timing reader of binary `.sub`
  streams, format detection and character set decoding;
- `errors`: the errors of the parsers and their messages;
- `cli`: the decisions of the command line tool - which files are subtitles, how their timings
  are read, how the voice activity detector is fed and how its flags become timespans, how the audio stream is chosen and decoded,
  and how the shifts are grouped and reported.

Each public function states in its contract what it returns; the `law_*` proof functions state
what holds across functions (writing a parsed `.ssa` or `.idx` file gives back its text, reading
back written entries gives their times, grouping and sorting keep every timespan).

`app/` is the command line program around the library: argument parsing, files, the `ffmpeg`
processes and the alignment itself.
