use osv2gpx::geotag::{frame_location, jpeg_file_order, FrameError};
use osv2gpx::gpx::Interpolation;
use osv2gpx::paths::{
    gpx_track_name, is_jpeg_path, lower_ext, output_gpx_path, parse_args, split_dir_gpx_args, split_gpx_mp4_args,
    Command,
};
use osv2gpx::time::Timestamp;

#[test]
fn extensions_are_lowercased() {
    assert_eq!(lower_ext("flight.OSV"), "osv");
    assert_eq!(lower_ext("dir/track.Gpx"), "gpx");
    assert_eq!(lower_ext("noext"), "");
    assert_eq!(lower_ext(".hidden"), "");
    assert!(is_jpeg_path("frames/frame_000001.JPG"));
    assert!(is_jpeg_path("a.jpeg"));
    assert!(!is_jpeg_path("a.png"));
    assert!(!is_jpeg_path("jpg"));
}

#[test]
fn output_path_and_track_name() {
    assert_eq!(output_gpx_path("dir/flight.OSV"), "dir/flight.gpx");
    assert_eq!(output_gpx_path("flight"), "flight.gpx");
    assert_eq!(gpx_track_name("dir/flight.OSV"), "flight");
}

#[test]
fn splits_gpx_and_mp4_in_either_order() {
    let expected = Some(("t.gpx".to_string(), "v.MP4".to_string()));
    assert_eq!(split_gpx_mp4_args("t.gpx", "v.MP4"), expected);
    assert_eq!(split_gpx_mp4_args("v.MP4", "t.gpx"), expected);
    assert_eq!(split_gpx_mp4_args("a.OSV", "b.OSV"), None);
}

#[test]
fn splits_directory_and_gpx_in_either_order() {
    let expected = Some(("frames".to_string(), "t.GPX".to_string()));
    assert_eq!(split_dir_gpx_args("frames", true, "t.GPX", false), expected);
    assert_eq!(split_dir_gpx_args("t.GPX", false, "frames", true), expected);
    assert_eq!(split_dir_gpx_args("frames", true, "t.txt", false), None);
    assert_eq!(split_dir_gpx_args("a.gpx", true, "b.gpx", true), None);
}

#[test]
fn arguments_are_classified() {
    let args = |v: &[&str]| v.iter().map(|s| s.to_string()).collect::<Vec<_>>();
    assert!(matches!(parse_args(&args(&["a.OSV", "--help"])), Command::Help));
    assert!(matches!(parse_args(&args(&["-x", "-h"])), Command::UnknownFlag(f) if f == "-x"));
    match parse_args(&args(&["a.OSV", "b.OSV"])) {
        Command::Paths(p) => assert_eq!(p, args(&["a.OSV", "b.OSV"])),
        other => panic!("unexpected {:?}", other),
    }
    assert!(matches!(parse_args(&args(&[])), Command::Paths(p) if p.is_empty()));
}

#[test]
fn frames_follow_the_first_point_one_second_apart() {
    let times = vec![
        Timestamp { secs: 1_000, nanos: 500_000_000 },
        Timestamp { secs: 1_002, nanos: 500_000_000 },
    ];
    assert_eq!(frame_location(&times, 0).unwrap(), (times[0], Interpolation::At(0)));
    assert_eq!(
        frame_location(&times, 1).unwrap(),
        (
            Timestamp { secs: 1_001, nanos: 500_000_000 },
            Interpolation::Between { before: 0, after: 1, elapsed_ns: 1_000_000_000, total_ns: 2_000_000_000 }
        )
    );
    assert_eq!(frame_location(&times, 2).unwrap(), (times[1], Interpolation::At(1)));
    assert!(matches!(
        frame_location(&times, 3),
        Err(FrameError::OutsideTrack { time }) if time == Timestamp { secs: 1_003, nanos: 500_000_000 }
    ));
    assert!(matches!(frame_location(&times, i64::MAX), Err(FrameError::TimeOverflow)));
}

#[test]
fn frame_files_sort_by_name() {
    let names: Vec<Vec<u8>> = vec![b"frame_10.jpg".to_vec(), b"frame_02.jpg".to_vec(), b"Frame_99.jpg".to_vec(), b"frame_1.jpg".to_vec()];
    assert_eq!(jpeg_file_order(&names), vec![2, 1, 3, 0]);
}
