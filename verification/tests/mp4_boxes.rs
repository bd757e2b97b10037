use osv2gpx::mp4::{
    parse_movie_creation_time, parse_tracks, quicktime_instant, quicktime_seconds, read_boxes, samples_for_track,
    select_track, write_mp4_creation_time, FileView, Mp4Error, SampleRef, StscEntry, SttsEntry, TimeBox, Track,
};
use osv2gpx::time::{Timestamp, QUICKTIME_EPOCH_SECS};

fn mp4_box(typ: &[u8; 4], payload: &[u8]) -> Vec<u8> {
    let mut out = ((payload.len() + 8) as u32).to_be_bytes().to_vec();
    out.extend_from_slice(typ);
    out.extend_from_slice(payload);
    out
}

fn be32(values: &[u32]) -> Vec<u8> {
    values.iter().flat_map(|v| v.to_be_bytes()).collect()
}

fn sample_file(creation: u32) -> Vec<u8> {
    let mvhd = mp4_box(b"mvhd", &be32(&[0, creation, creation, 1000, 0]));
    let tkhd = mp4_box(b"tkhd", &be32(&[0, creation, creation, 7, 0, 0]));
    let mdhd = mp4_box(b"mdhd", &be32(&[0, creation, creation, 30, 0, 0]));
    let mut hdlr_payload = be32(&[0, 0]);
    hdlr_payload.extend_from_slice(b"meta");
    hdlr_payload.extend_from_slice(&be32(&[0, 0, 0]));
    hdlr_payload.extend_from_slice(b"DJI meta\0\0");
    let hdlr = mp4_box(b"hdlr", &hdlr_payload);
    let mut stsd_payload = be32(&[0, 1, 16]);
    stsd_payload.extend_from_slice(b"djmd");
    let stsd = mp4_box(b"stsd", &stsd_payload);
    let stsz = mp4_box(b"stsz", &be32(&[0, 0, 3, 4, 5, 6]));
    let stco = mp4_box(b"stco", &be32(&[0, 2, 1000, 2000]));
    let stsc = mp4_box(b"stsc", &be32(&[0, 2, 1, 2, 1, 2, 1, 1]));
    let stts = mp4_box(b"stts", &be32(&[0, 1, 3, 15]));
    let stbl = mp4_box(b"stbl", &[stsd, stsz, stco, stsc, stts].concat());
    let minf = mp4_box(b"minf", &stbl);
    let mdia = mp4_box(b"mdia", &[mdhd, hdlr, minf].concat());
    let trak = mp4_box(b"trak", &[tkhd, mdia].concat());
    let moov = mp4_box(b"moov", &[mvhd, trak].concat());
    let ftyp = mp4_box(b"ftyp", b"isom\0\0\0\0");
    [ftyp, moov].concat()
}

fn whole_view(bytes: &[u8]) -> FileView {
    let mut view = FileView::new(bytes.len() as u64);
    view.add_chunk(0, bytes.to_vec());
    view
}

#[test]
fn parses_the_metadata_track() {
    let file = sample_file(3_800_000_000);
    let view = whole_view(&file);
    let tracks = parse_tracks(&view).unwrap();
    assert_eq!(tracks.len(), 1);
    let track = select_track(&tracks, 0).unwrap();
    assert_eq!(track.id, 7);
    assert_eq!(track.handler, "meta");
    assert_eq!(track.name, "DJI meta");
    assert_eq!(track.sample_entry, "djmd");
    assert_eq!(track.timescale, 30);
    assert_eq!(track.sizes, vec![4, 5, 6]);
    assert_eq!(track.chunk_offsets, vec![1000, 2000]);
    let refs = samples_for_track(track).unwrap();
    assert_eq!(
        refs,
        vec![
            SampleRef { index: 1, offset: 1000, size: 4, ticks: 0 },
            SampleRef { index: 2, offset: 1004, size: 5, ticks: 15 },
            SampleRef { index: 3, offset: 2000, size: 6, ticks: 30 },
        ]
    );
    assert_eq!(select_track(&tracks, 7).unwrap().id, 7);
    assert_eq!(select_track(&tracks, 9).err(), Some(Mp4Error::TrackNotFound { id: 9 }));
}

#[test]
fn reads_and_rewrites_the_creation_time() {
    let mut file = sample_file(3_800_000_000);
    let view = whole_view(&file);
    let t = parse_movie_creation_time(&view).unwrap();
    assert_eq!(t, Timestamp { secs: QUICKTIME_EPOCH_SECS + 3_800_000_000, nanos: 0 });

    let target = Timestamp { secs: 1_779_873_796, nanos: 647_000_000 };
    let patch = write_mp4_creation_time(&view, target);
    assert_eq!(patch.result, Ok(6));
    assert_eq!(patch.writes.len(), 6);
    for w in &patch.writes {
        let start = w.offset as usize;
        file[start..start + w.bytes.len()].copy_from_slice(&w.bytes);
    }
    let reread = parse_movie_creation_time(&whole_view(&file)).unwrap();
    assert_eq!(reread, Timestamp { secs: 1_779_873_796, nanos: 0 });
}

#[test]
fn creation_time_errors() {
    let file = sample_file(0);
    let view = whole_view(&file);
    let before_epoch = Timestamp { secs: QUICKTIME_EPOCH_SECS - 1, nanos: 0 };
    assert_eq!(write_mp4_creation_time(&view, before_epoch).result, Err(Mp4Error::BeforeQuickTimeEpoch));
    let too_late = Timestamp { secs: QUICKTIME_EPOCH_SECS + 0x1_0000_0000, nanos: 0 };
    assert_eq!(
        write_mp4_creation_time(&view, too_late).result,
        Err(Mp4Error::TimeFieldTooLarge { kind: TimeBox::Mvhd, seconds: 0x1_0000_0000 })
    );
    let empty = whole_view(&mp4_box(b"free", b""));
    assert_eq!(write_mp4_creation_time(&empty, Timestamp { secs: 0, nanos: 0 }).result, Err(Mp4Error::NoTimeFields));
    assert_eq!(parse_movie_creation_time(&empty), Err(Mp4Error::MvhdNotFound));
}

#[test]
fn views_ask_for_missing_bytes() {
    let file = sample_file(5);
    let view = FileView::new(file.len() as u64);
    assert_eq!(parse_tracks(&view).err(), Some(Mp4Error::NeedBytes { offset: 0, len: 16 }));
    assert_eq!(view.read(file.len() as u64 - 2, 4), Err(Mp4Error::ReadPastEnd { offset: file.len() as u64 - 2, len: 4 }));
    let boxes = read_boxes(&whole_view(&file), 0, file.len() as u64).unwrap();
    assert_eq!(boxes.len(), 2);
    assert_eq!(boxes[0].typ, "ftyp");
    assert_eq!(boxes[1].typ, "moov");
    assert_eq!(boxes[1].start, 16);
    assert_eq!(boxes[1].end, file.len() as u64);
}

#[test]
fn quicktime_seconds_round_trip() {
    let t = Timestamp { secs: 1_000_000_000, nanos: 999 };
    let s = quicktime_seconds(t).unwrap();
    assert_eq!(s, (1_000_000_000 - QUICKTIME_EPOCH_SECS) as u64);
    assert_eq!(quicktime_instant(s), Some(Timestamp { secs: 1_000_000_000, nanos: 0 }));
}

#[test]
fn sample_layout_errors() {
    let mut track = Track {
        id: 1,
        handler: String::new(),
        name: String::new(),
        sample_entry: String::new(),
        timescale: 1,
        sample_count: 0,
        sizes: vec![],
        chunk_offsets: vec![0],
        stsc: vec![StscEntry { first_chunk: 1, samples_per_chunk: 1, sample_description_index: 1 }],
        stts: vec![SttsEntry { sample_count: 1, sample_delta: 1 }],
    };
    assert_eq!(samples_for_track(&track).err(), Some(Mp4Error::NoSampleSizes));
    track.sizes = vec![1, 2];
    assert_eq!(samples_for_track(&track).err(), Some(Mp4Error::SampleCountMismatch { built: 1, sizes: 2 }));
    track.chunk_offsets = vec![];
    assert_eq!(samples_for_track(&track).err(), Some(Mp4Error::NoChunkOffsets));
    track.chunk_offsets = vec![0];
    track.stsc = vec![];
    assert_eq!(samples_for_track(&track).err(), Some(Mp4Error::NoSampleToChunk));
    assert_eq!(select_track(&[track], 0).err(), Some(Mp4Error::NoMetadataTrack));
}

#[test]
fn every_rewritten_field_holds_the_same_seconds() {
    let file = sample_file(7);
    let view = whole_view(&file);
    let target = Timestamp { secs: 0, nanos: 0 };
    let patch = write_mp4_creation_time(&view, target);
    let seconds = (0 - QUICKTIME_EPOCH_SECS) as u32;
    assert!(patch.writes.iter().all(|w| w.bytes == seconds.to_be_bytes().to_vec()));
    let offsets: Vec<u64> = patch.writes.iter().map(|w| w.offset).collect();
    assert_eq!(offsets.len(), 6);
    assert!(offsets.windows(2).all(|w| w[0] < w[1]));
}

#[test]
fn short_handler_boxes_are_refused() {
    let hdlr = mp4_box(b"hdlr", &be32(&[0, 0]));
    let mdia = mp4_box(b"mdia", &hdlr);
    let trak = mp4_box(b"trak", &mdia);
    let moov = mp4_box(b"moov", &trak);
    assert_eq!(parse_tracks(&whole_view(&moov)).err(), Some(Mp4Error::ShortHdlr));
}

#[test]
fn creation_times_beyond_chrono_are_refused() {
    let mut payload = vec![1, 0, 0, 0];
    payload.extend_from_slice(&(1u64 << 63).to_be_bytes());
    payload.extend_from_slice(&[0u8; 16]);
    let moov = mp4_box(b"moov", &mp4_box(b"mvhd", &payload));
    assert_eq!(parse_movie_creation_time(&whole_view(&moov)), Err(Mp4Error::CreationTimeOutOfRange));
}

#[test]
fn version_one_boxes_get_64_bit_fields() {
    let mut payload = vec![1, 0, 0, 0];
    payload.extend_from_slice(&5u64.to_be_bytes());
    payload.extend_from_slice(&5u64.to_be_bytes());
    payload.extend_from_slice(&[0u8; 12]);
    let mut file = mp4_box(b"moov", &mp4_box(b"mvhd", &payload));
    let view = whole_view(&file);
    let target = Timestamp { secs: QUICKTIME_EPOCH_SECS + 0x1_2345_6789, nanos: 0 };
    let patch = write_mp4_creation_time(&view, target);
    assert_eq!(patch.result, Ok(2));
    assert_eq!(patch.writes[0].offset, 20);
    assert_eq!(patch.writes[0].bytes, 0x1_2345_6789u64.to_be_bytes().to_vec());
    assert_eq!(patch.writes[1].offset, 28);
    for w in &patch.writes {
        let start = w.offset as usize;
        file[start..start + w.bytes.len()].copy_from_slice(&w.bytes);
    }
    assert_eq!(parse_movie_creation_time(&whole_view(&file)), Ok(target));
}

#[test]
fn sample_to_chunk_order_does_not_matter() {
    let rows = vec![
        StscEntry { first_chunk: 1, samples_per_chunk: 2, sample_description_index: 1 },
        StscEntry { first_chunk: 2, samples_per_chunk: 1, sample_description_index: 1 },
        StscEntry { first_chunk: 3, samples_per_chunk: 3, sample_description_index: 1 },
    ];
    let mut track = Track {
        id: 1,
        handler: String::new(),
        name: String::new(),
        sample_entry: String::new(),
        timescale: 1,
        sample_count: 6,
        sizes: vec![10, 20, 30, 40, 50, 60],
        chunk_offsets: vec![100, 200, 300],
        stsc: rows.clone(),
        stts: vec![SttsEntry { sample_count: 6, sample_delta: 2 }],
    };
    let in_order = samples_for_track(&track).unwrap();
    assert_eq!(in_order.iter().map(|s| s.offset).collect::<Vec<_>>(), vec![100, 110, 200, 300, 340, 390]);
    assert_eq!(in_order.iter().map(|s| s.ticks).collect::<Vec<_>>(), vec![0, 2, 4, 6, 8, 10]);
    track.stsc = vec![rows[2], rows[0], rows[1]];
    assert_eq!(samples_for_track(&track).unwrap(), in_order);
    track.stsc = vec![rows[1], rows[2], rows[0]];
    assert_eq!(samples_for_track(&track).unwrap(), in_order);
}
