# osv2gpx

Tools for DJI OSV recordings: extract the GPS track of an OSV file as GPX,
copy the first GPX time into the creation time of an MP4, and geotag JPG
frames (one per second) with positions from a GPX track.

The library under `src/` is verified with Verus; `app/main.rs` is the
command-line program around it (file and directory I/O, floating-point
geometry, messages).

## Layout

- `bytes.rs`, `proto.rs`: big-endian integers and protobuf wire-format parsing.
- `gps.rs`: unwrapping embedded MP4 samples and finding the GPS fix in nested
  telemetry messages.
- `mp4.rs`: MP4 box walking over a `FileView` (the parts of a file read so far),
  track tables, sample layout, the movie creation time, and the plan of writes
  that rewrites the creation times.
- `mp4_rewrite.rs`: proof that the creation time reads back as the time
  written, to the second, wherever the planned writes leave the bytes the read
  looks at (box headers on its way, the `mvhd` version byte) untouched and put
  the time written into the `mvhd` creation field; every file whose time boxes
  hold their time fields is such a file.
- `jpeg.rs`: JPEG segment walking, image size, EXIF GPS and GPano XMP payloads,
  and the rewrite of the metadata APP1 segments.
- `xml.rs`: the quick-xml reader and writer, with events as plain values.
- `gpx.rs`: the first time of a GPX file, its track points, their order,
  interpolation between them, and the GPX file written for a track.
- `geotag.rs`: frame times and the order of frame files.
- `paths.rs`: file extensions, output paths and command-line arguments.
- `time.rs`, `text.rs`: the chrono functions the library calls, and text
  decoding and trimming.

