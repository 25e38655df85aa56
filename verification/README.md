# WHEP to SRT bridge

Receives a WebRTC stream from a WHEP endpoint and sends it on as MPEG-TS over SRT. GStreamer
moves the media; this crate decides what it does.

- `src/` is the library, verified with Verus. It holds every decision as a function on plain
  values, with a contract: the settings and their defaults, the text of the pipeline, the elements
  attached for each track, the choice of the video track, the RTCP bandwidth report (REMB), the
  removal of the HDMV mark from the MPEG-TS program map, and the reaction to bus messages. Proof
  functions named `law_...` state what holds of several functions together or of every run.
- `tests/` runs the library on concrete values.
- `app/` is the program: the command line, the environment, and GStreamer. It needs the GStreamer
  development libraries (1.24 or later) to build.

## What the library promises

- At most one video track is bridged: the first one that proves, by an unpadded packet or a frame
  marker, that it carries media. Until then its buffers are dropped, and a padding-only stream
  cannot take its place.
- A bandwidth report is read back as it was meant, is never more than what was asked for, and
  leaves compound RTCP compound.
- No HDMV registration is left in a program map, however many packets it spans, whatever else is in
  them, and wherever the buffers of the stream end; nothing else of it changes but its lengths and
  its checksum. No packet is added or lost: those of a map that is not whole yet are held back
  until it is, and those of other PIDs pass at once.
- H.264 video is passed through; any other video is re-encoded to H.264.

## Settings

| Option | Environment | Default |
|--------|-------------|---------|
| `-i, --input-url` | | (required) |
| `-o, --output-url` | | `srt://0.0.0.0:1234?mode=listener` |
| `--auth-token` | `WHEP_SRT_AUTH_TOKEN` | |
| `--latency` (ms) | `WHEP_SRT_JITTERBUFFER_LATENCY` | 200, or 2000 with `--bridge-video` |
| `--bridge-video` | | off |
| `--video-bitrate` (kbps) | `WHEP_SRT_VIDEO_BITRATE` | 8000 |
| `--video-preset` | `WHEP_SRT_VIDEO_PRESET` | `fast` |
| `--video-key-int` (frames) | `WHEP_SRT_VIDEO_KEY_INT` | 60 |
| `--dot-debug` | | off |
| | `WHEP_SRT_REMB_KBPS` (bandwidth to claim) | off |
