use dyndo::codec::{AacCodec, Codec, Mp4aConfig, WvttCodec};

#[test]
fn rfc6381_includes_the_audio_object_type() {
    let codec = AacCodec { profile: 2 };

    assert_eq!(codec.rfc6381(), "mp4a.40.2");
}

#[test]
fn rfc6381_identifies_webvtt() {
    assert_eq!(WvttCodec.rfc6381(), "wvtt");
}

#[test]
fn rfc6381_writes_every_digit_of_the_object_type() {
    assert_eq!(
        (AacCodec { profile: 0 }.rfc6381(), AacCodec { profile: 29 }.rfc6381(), AacCodec { profile: 255 }.rfc6381()),
        ("mp4a.40.0".to_string(), "mp4a.40.29".to_string(), "mp4a.40.255".to_string())
    );
}

#[test]
fn new_reads_the_audio_object_type_from_esds() {
    let codec = AacCodec::new(&Mp4aConfig { object_type: Some(2) }).unwrap();

    assert_eq!(codec.rfc6381(), "mp4a.40.2");
}

#[test]
fn new_needs_a_decoder_specific_configuration() {
    assert_eq!(AacCodec::new(&Mp4aConfig { object_type: None }), None);
    assert_eq!(
        AacCodec::new(&Mp4aConfig { object_type: Some(5) }),
        Some(AacCodec { profile: 5 })
    );
}
