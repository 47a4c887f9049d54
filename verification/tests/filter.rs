use dyndo::filter::{
    Attribute, AudioFacts, Comparison, Filter, Literal, Operator, ThumbnailFacts, TrackFacts,
    VideoFacts,
};

fn track(id: &str, kind: &str, format: &str, codec: Option<&str>) -> TrackFacts {
    TrackFacts {
        kind: kind.to_string(),
        format: format.to_string(),
        id: id.to_string(),
        codec: codec.map(str::to_string),
        language: None,
        role: None,
        video: None,
        audio: None,
        thumbnail: None,
    }
}

fn asset() -> Vec<TrackFacts> {
    let mut video = track("video", "video", "cmaf", Some("wvtt"));
    video.video = Some(VideoFacts {
        width: 1_920,
        height: 1_080,
        frame_rate: "25/1".to_string(),
    });
    let mut audio = track("audio", "audio", "cmaf", Some("wvtt"));
    audio.audio = Some(AudioFacts {
        sample_rate: 48_000,
        channels: 2,
    });
    audio.language = Some("eng".to_string());
    let cmaf_text = track("cmaf-text", "text", "cmaf", Some("wvtt"));
    let web_vtt = track("webvtt", "text", "webvtt", None);
    let mut thumbnail = track("preview", "thumbnail", "thumbnail", None);
    thumbnail.thumbnail = Some(ThumbnailFacts {
        width: 640,
        height: 360,
        tile_size: 4,
    });
    vec![video, audio, cmaf_text, web_vtt, thumbnail]
}

fn ids(tracks: &[TrackFacts]) -> Vec<&str> {
    tracks.iter().map(|track| track.id.as_str()).collect()
}

fn kept(filter: &str) -> Vec<String> {
    let mut tracks = asset();
    let result = Filter::parse(filter).unwrap().apply(&mut tracks);
    if tracks.is_empty() {
        assert!(result.is_err());
    } else {
        assert!(result.is_ok());
    }
    tracks.into_iter().map(|track| track.id).collect()
}

#[test]
fn apply_keeps_matching_thumbnail_tracks() {
    let mut asset = asset();

    Filter::parse("type==thumbnail&&width>=640")
        .unwrap()
        .apply(&mut asset)
        .unwrap();

    assert_eq!(asset.iter().filter(|track| track.kind == "thumbnail").count(), 1);
}

#[test]
fn apply_uses_resolved_track_fields() {
    let mut asset = asset();

    Filter::parse("codec==wvtt&&type==audio")
        .unwrap()
        .apply(&mut asset)
        .unwrap();

    assert_eq!(asset[0].id, "audio");
}

#[test]
fn apply_keeps_cmaf_and_webvtt_text_tracks() {
    let mut asset = asset();

    Filter::parse("type==text").unwrap().apply(&mut asset).unwrap();

    assert_eq!(ids(&asset), ["cmaf-text", "webvtt"]);
}

#[test]
fn apply_excludes_cmaf_and_webvtt_text_tracks_by_type() {
    let mut asset = asset();

    Filter::parse("type!=text").unwrap().apply(&mut asset).unwrap();

    assert!(asset.iter().all(|track| track.kind != "text"));
}

#[test]
fn apply_filters_raw_webvtt_tracks_by_format() {
    let mut asset = asset();

    Filter::parse("format==webvtt")
        .unwrap()
        .apply(&mut asset)
        .unwrap();

    assert_eq!(ids(&asset), ["webvtt"]);
}

#[test]
fn parse_rejects_segment_derived_attributes() {
    let result = Filter::parse("bitrate>=800000");

    assert!(result.is_err());
}

#[test]
fn filter_and_binds_tighter_than_or() {
    assert_eq!(kept("type==audio||type==video&&width>=4000"), ["audio"]);
    assert_eq!(kept("type==video&&width>=4000||type==audio"), ["audio"]);
}

#[test]
fn filter_parentheses_group() {
    assert_eq!(kept("(type==audio||type==video)&&width>=1280"), ["video"]);
    assert_eq!(kept("((type==audio))"), ["audio"]);
}

#[test]
fn filter_allows_whitespace_around_tokens() {
    assert_eq!(kept(" type == video\t&&\nwidth >= 1280 "), ["video"]);
}

#[test]
fn filter_width_falls_back_to_thumbnail() {
    assert_eq!(kept("width<1000"), ["preview"]);
    assert_eq!(kept("height==360"), ["preview"]);
    assert_eq!(kept("tile_size>1"), ["preview"]);
}

#[test]
fn filter_compares_audio_and_text_attributes() {
    assert_eq!(kept("sample_rate==48000&&channels<=2"), ["audio"]);
    assert_eq!(kept("language==eng"), ["audio"]);
    assert_eq!(kept("frame_rate==25/1"), ["video"]);
    assert_eq!(kept("id==cmaf-text||id==preview"), ["cmaf-text", "preview"]);
}

#[test]
fn filter_missing_attribute_fails_every_operator() {
    assert_eq!(kept("role!=main"), Vec::<String>::new());
}

#[test]
fn filter_that_keeps_nothing_is_an_error() {
    let mut tracks = asset();
    let result = Filter::parse("type==subtitle").unwrap().apply(&mut tracks);
    assert_eq!(
        result.unwrap_err().message(),
        "no asset track matches the filter"
    );
    assert!(tracks.is_empty());
}

#[test]
fn filter_rejects_malformed_text() {
    for text in [
        "",
        "   ",
        "type",
        "type=video",
        "type>=video",
        "type<video",
        "width>=wide",
        "width>=18446744073709551616",
        "type==video)",
        "(type==video",
        "type==video extra",
        "type==video&&",
        "type==video&&&width>1",
        "type==video|width>1",
        "Type==video",
        "type==vid eo",
    ] {
        assert!(Filter::parse(text).is_err(), "{text:?} should not parse");
    }
}

#[test]
fn filter_accepts_largest_whole_number() {
    assert!(Filter::parse("width<=18446744073709551615").is_ok());
    assert_eq!(kept("width>=0007"), ["video", "preview"]);
}

#[test]
fn filter_error_points_at_the_failure() {
    assert_eq!(Filter::parse("bitrate>=800000").unwrap_err().offset, 0);
    assert_eq!(Filter::parse("type==video extra").unwrap_err().offset, 12);
    assert_eq!(Filter::parse("type = video").unwrap_err().offset, 5);
}

#[test]
fn filter_attribute_names() {
    assert_eq!(Attribute::parse("frame_rate"), Some(Attribute::FrameRate));
    assert_eq!(Attribute::parse("tile_size"), Some(Attribute::TileSize));
    assert_eq!(Attribute::parse("bitrate"), None);
    assert!(Attribute::Width.is_numeric());
    assert!(!Attribute::Codec.is_numeric());
    assert!(Operator::Less.is_ordering());
    assert!(!Operator::NotEqual.is_ordering());
}

#[test]
fn filter_text_comparison_orders_lexicographically() {
    let video = &asset()[0];
    let before = Comparison {
        attribute: Attribute::Id,
        operator: Operator::Less,
        value: Literal::Text("w".to_string()),
    };
    assert!(before.matches(video));
    let after = Comparison {
        attribute: Attribute::Id,
        operator: Operator::Greater,
        value: Literal::Text("videos".to_string()),
    };
    assert!(!after.matches(video));
    let prefix = Comparison {
        attribute: Attribute::Id,
        operator: Operator::Greater,
        value: Literal::Text("vid".to_string()),
    };
    assert!(prefix.matches(video));
}
