use dyndo::error::ServerError;
use dyndo::options::{AssetDescriptor, DashOptions, HlsOptions, Options, SegmentOptions};
use dyndo::routing::{segment_time, track_resource, ContentType};

#[test]
fn track_resource_reads_the_typed_identifier() {
    assert_eq!(
        track_resource("video_6b745be5-2791-5d95-8ce5-8f8bde29e2fe"),
        Some((ContentType::Video, "6b745be5-2791-5d95-8ce5-8f8bde29e2fe".to_string()))
    );
}

#[test]
fn track_resource_rejects_unknown_content_types() {
    assert_eq!(track_resource("unknown_main"), None);
}

#[test]
fn track_resource_splits_at_the_last_underscore() {
    assert_eq!(
        (track_resource("text_en_main"), track_resource("image_"), track_resource("audio")),
        (None, None, None)
    );
    assert_eq!(
        track_resource("image_thumbs"),
        Some((ContentType::Image, "thumbs".to_string()))
    );
}

#[test]
fn segment_time_reads_a_decimal_start_time() {
    assert_eq!(segment_time("90000", "90000.m4s").unwrap(), 90_000);
    assert!(matches!(
        segment_time("init", "init.m4s"),
        Err(ServerError::NotFound(file)) if file == "init.m4s"
    ));
    assert!(segment_time("18446744073709551616", "x.m4s").is_err());
}

#[test]
fn parse_reads_root_segment_options() {
    let options = Options::parse("asset:demo,min_length:1000,text_length:2000").unwrap();

    assert_eq!((options.min_length, options.text_length), (1_000, 2_000));
}

#[test]
fn apply_to_preserves_descriptor_values_when_options_are_empty() {
    let options = Options::parse("asset:demo").unwrap();
    let mut descriptor = AssetDescriptor::default();
    descriptor.segment_options = SegmentOptions {
        min_length: 1_000,
        text_length: 2_000,
        boundaries: vec![3_000],
    };

    options.apply_to(&mut descriptor);

    assert_eq!(
        descriptor.segment_options,
        SegmentOptions {
            min_length: 1_000,
            text_length: 2_000,
            boundaries: vec![3_000],
        }
    );
}

#[test]
fn apply_to_overwrites_descriptor_values() {
    let options = Options::parse("asset:demo,min_length:1000,text_length:2000").unwrap();
    let mut descriptor = AssetDescriptor::default();
    descriptor.segment_options.boundaries = vec![3_000];

    options.apply_to(&mut descriptor);

    assert_eq!(
        descriptor.segment_options,
        SegmentOptions {
            min_length: 1_000,
            text_length: 2_000,
            boundaries: vec![3_000],
        }
    );
}

#[test]
fn parse_rejects_boundaries() {
    assert!(Options::parse("asset:demo,boundaries:!(3000)").is_err());
    assert!(Options::parse("asset:demo,sb:!(3000)").is_err());
    assert!(Options::parse("asset:demo,segment_boundaries:!(3000)").is_err());
}

#[test]
fn dash_options_returns_builder_configuration() {
    let options = Options::parse("asset:demo,c:!t,mp:!t").unwrap();

    assert_eq!(
        options.dash_options(),
        DashOptions {
            compact: true,
            multi_period: true,
        }
    );
}

#[test]
fn hls_options_returns_builder_configuration() {
    let options = Options::parse("asset:demo,wvtt:!t").unwrap();

    assert_eq!(options.hls_options(), HlsOptions { wvtt: true });
}

#[test]
fn parse_reads_aliases_and_a_parenthesised_object() {
    let options = Options::parse("(a:'my asset',sml:500,stl:250,compact:!f,multi_period:!t)").unwrap();

    assert_eq!(
        (
            options.asset(),
            options.min_length,
            options.text_length,
            options.compact,
            options.multi_period,
            options.wvtt
        ),
        ("my asset", 500, 250, false, true, false)
    );
}

#[test]
fn parse_requires_an_asset() {
    assert!(matches!(Options::parse("min_length:1000"), Err(ServerError::BadRequest(_))));
}

#[test]
fn parse_rejects_an_option_set_twice_by_its_aliases() {
    assert!(matches!(Options::parse("asset:demo,a:other"), Err(ServerError::BadRequest(_))));
}

#[test]
fn parse_rejects_values_of_the_wrong_type() {
    assert!(Options::parse("asset:demo,min_length:!t").is_err());
    assert!(Options::parse("asset:demo,min_length:-1").is_err());
    assert!(Options::parse("asset:demo,min_length:1.5").is_err());
    assert!(Options::parse("asset:demo,compact:1").is_err());
    assert!(Options::parse("asset:1000").is_err());
}

#[test]
fn parse_rejects_what_is_not_a_rison_object() {
    assert!(matches!(Options::parse("(asset:demo"), Err(ServerError::BadRequest(_))));
}

use dyndo::cmaf::{ByteRange, CmafHeader, Segment, Stream, VideoCodec, VideoStream};
use dyndo::routing::{
    manifest_route, segment_file_range, split_extension, track_file_route, ManifestRoute,
    TrackFileRoute,
};

fn header() -> CmafHeader {
    CmafHeader {
        timescale: 90000,
        duration: 180000,
        bandwidth: 1000,
        earliest_presentation_time: 0,
        init_range: ByteRange { start: 0, end: 100 },
        segments: vec![
            Segment { offset: 100, size: 500, duration: 90000 },
            Segment { offset: 600, size: 700, duration: 90000 },
        ],
        stream: Stream::Video(VideoStream {
            codec: VideoCodec::Avc { profile: 0x64, constraints: 0, level: 0x28 },
            width: 1920,
            height: 1080,
            frame_rate: (25, 1),
        }),
    }
}

#[test]
fn split_extension_splits_at_the_last_dot() {
    assert_eq!(
        split_extension("video_x.init.mp4"),
        Some(("video_x.init".to_string(), "mp4".to_string()))
    );
    assert_eq!(split_extension("index"), None);
}

#[test]
fn manifest_routes_name_each_manifest() {
    assert_eq!(manifest_route("index", "mpd"), Some(ManifestRoute::Dash));
    assert_eq!(manifest_route("master", "m3u8"), Some(ManifestRoute::HlsMaster));
    assert_eq!(
        manifest_route("image_thumbs", "m3u8"),
        Some(ManifestRoute::HlsImages("thumbs".to_string()))
    );
    assert_eq!(
        manifest_route("text_en", "m3u8"),
        Some(ManifestRoute::HlsMedia("en".to_string()))
    );
    assert_eq!(manifest_route("index", "m3u8"), None);
    assert_eq!(manifest_route("master", "mpd"), None);
}

#[test]
fn track_file_routes_read_the_time_a_file_names() {
    assert_eq!(
        track_file_route(ContentType::Audio, "init", "mp4", "init.mp4").unwrap(),
        TrackFileRoute::Initialization
    );
    assert_eq!(
        track_file_route(ContentType::Video, "90000", "m4s", "90000.m4s").unwrap(),
        TrackFileRoute::Media(90_000)
    );
    assert_eq!(
        track_file_route(ContentType::Text, "4000", "vtt", "4000.vtt").unwrap(),
        TrackFileRoute::Text(4_000)
    );
    assert_eq!(
        track_file_route(ContentType::Video, "12", "jpg", "12.jpg").unwrap(),
        TrackFileRoute::Thumbnail(12)
    );
}

#[test]
fn track_file_routes_refuse_what_a_track_does_not_have() {
    for (kind, stem, extension, file) in [
        (ContentType::Image, "init", "mp4", "init.mp4"),
        (ContentType::Audio, "12", "vtt", "12.vtt"),
        (ContentType::Text, "12", "jpg", "12.jpg"),
        (ContentType::Video, "init", "m4s", "init.m4s"),
    ] {
        assert!(matches!(
            track_file_route(kind, stem, extension, file),
            Err(ServerError::NotFound(name)) if name == file
        ));
    }
}

#[test]
fn segment_files_resolve_to_their_bytes() {
    let header = header();

    assert_eq!(segment_file_range("init.mp4", &header).unwrap(), ByteRange { start: 0, end: 100 });
    assert_eq!(
        segment_file_range("90000.m4s", &header).unwrap(),
        ByteRange { start: 600, end: 1300 }
    );
    assert!(matches!(
        segment_file_range("45000.m4s", &header),
        Err(ServerError::NotFound(message)) if message == "no segment at time 45000"
    ));
    assert!(matches!(
        segment_file_range("x.m4s", &header),
        Err(ServerError::BadRequest(message)) if message == "invalid segment time: x.m4s"
    ));
    assert!(matches!(
        segment_file_range("init.mp5", &header),
        Err(ServerError::NotFound(message)) if message == "unknown segment: init.mp5"
    ));
}

#[test]
fn options_refuse_deeply_nested_values_without_recursing() {
    let mut fragment = String::from("asset:demo,x:");
    for _ in 0..100_000 {
        fragment.push_str("!(");
    }
    assert!(matches!(Options::parse(&fragment), Err(ServerError::BadRequest(_))));
    assert!(matches!(
        Options::parse("asset:(id:demo)"),
        Err(ServerError::BadRequest(_))
    ));
}

#[test]
fn options_allow_parentheses_inside_quoted_text() {
    let options = Options::parse("asset:'a(b)!!c'").unwrap();
    assert_eq!(options.asset(), "a(b)!c");
}

#[test]
fn options_refuse_a_key_given_twice() {
    assert!(matches!(
        Options::parse("(asset:a,asset:b)"),
        Err(ServerError::BadRequest(_))
    ));
    assert!(matches!(
        Options::parse("asset:a,'asset':b"),
        Err(ServerError::BadRequest(_))
    ));
    assert!(Options::parse("(asset:'a,b',min_length:5)").is_ok());
}
