# dyndo

Subtitle packaging for a dynamic CMAF packager, verified with Verus: WebVTT
documents are parsed into subtitles, subtitles are divided into the fragments
and samples of a CMAF text track and merged back, served `wvtt` segments are read
back into cues, and the requests a packager serves are routed and resolved.

## Layout

- `src/` — the verified library.
  - `subtitle`, `charseq`, `vtt`: the cue model, text utilities, WebVTT parsing.
  - `timeline`, `fragmenter`, `sampling`, `tiling`: dividing a timeline at splice
    points and on a grid, fragments and samples, text segments, track samples
    and their grouping.
  - `roundtrip`: the proofs that merging inverts dividing, and the laws around it.
  - `reading`: what a sample holds and what merging reads of it.
  - `muxer`: packing fragments into a `wvtt` track: the cue boxes, each
    fragment's `styp` · `moof` · `mdat`, the track header (`moov`, its
    containers written here around mp4-atom's leaf boxes) and the `sidx`.
  - `demuxer`: reading a served `wvtt` segment back into cues.
  - `time`, `codec`, `packaging`, `media`, `cmaf`: media time, codec names, media
    segments, frame rates and the index of a CMAF track.
  - `error`, `paths`, `routing`, `options`, `command`: request errors, safe path
    joining, request routing, the Rison options of a request path, the developer
    command line.
  - `filter`: the track filter language of manifest requests, its parser, and
    which tracks a filter keeps.
- `tests/` — tests run against the compiled library.
- `app/` — the command line: packs a WebVTT document into a `wvtt` track, unpacks
  a segment back into its cues, and compacts a DASH manifest.
