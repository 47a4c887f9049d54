use dyndo::subtitle::Cue;
use dyndo::vtt::{parse, parse_timestamp, VttError};

const SAMPLE_DOCUMENT: &str = "WEBVTT\n\n00:00.000 --> 00:03.000\nWelcome to dyndo\n\n00:02.000 --> 00:05.000\nOverlapping caption\n\n00:10.000 --> 00:12.500\nAfter a gap\n";

#[test]
fn vtt_parses_the_sample_document() {
    let subtitle = parse(SAMPLE_DOCUMENT).unwrap();

    assert_eq!(
        subtitle
            .cues
            .iter()
            .map(|cue| (cue.start, cue.end, cue.text.as_str()))
            .collect::<Vec<_>>(),
        [
            (0, 3_000, "Welcome to dyndo"),
            (2_000, 5_000, "Overlapping caption"),
            (10_000, 12_500, "After a gap"),
        ]
    );
}

#[test]
fn parses_a_single_cue() {
    let subtitle = parse("WEBVTT\n\n00:00.000 --> 00:02.000\nHello").unwrap();

    assert_eq!(
        subtitle.cues,
        vec![Cue {
            start: 0,
            end: 2_000,
            text: "Hello".to_string(),
        }]
    );
}

#[test]
fn parses_a_document_with_no_cues() {
    let subtitle = parse("WEBVTT\n").unwrap();

    assert!(subtitle.cues.is_empty());
}

#[test]
fn accepts_a_signature_with_a_title() {
    let subtitle = parse("WEBVTT - Episode 1\n\n00:00.000 --> 00:01.000\nx").unwrap();

    assert_eq!(subtitle.cues.len(), 1);
}

#[test]
fn rejects_a_missing_signature() {
    let error = parse("00:00.000 --> 00:01.000\nx").unwrap_err();

    assert!(matches!(error, VttError::MissingSignature));
}

#[test]
fn rejects_a_signature_run_into_other_text() {
    let error = parse("WEBVTTISH\n\n00:00.000 --> 00:01.000\nx").unwrap_err();

    assert!(matches!(error, VttError::MissingSignature));
}

#[test]
fn keeps_multiline_text_verbatim() {
    let subtitle = parse("WEBVTT\n\n00:00.000 --> 00:02.000\n<b>one</b>\ntwo").unwrap();

    assert_eq!(subtitle.cues[0].text, "<b>one</b>\ntwo");
}

#[test]
fn discards_the_cue_identifier() {
    let subtitle = parse("WEBVTT\n\nintro\n00:00.000 --> 00:02.000\nHi").unwrap();

    assert_eq!(
        (subtitle.cues[0].start, subtitle.cues[0].text.as_str()),
        (0, "Hi")
    );
}

#[test]
fn discards_cue_settings() {
    let subtitle = parse("WEBVTT\n\n00:00.000 --> 00:02.000 align:start line:90%\nHi").unwrap();

    assert_eq!(
        (subtitle.cues[0].end, subtitle.cues[0].text.as_str()),
        (2_000, "Hi")
    );
}

#[test]
fn skips_note_style_and_region_blocks() {
    let document = "WEBVTT\n\nNOTE a comment\nspanning two lines\n\nSTYLE\n::cue { color: yellow }\n\nREGION\nid:top width:40%\n\n00:00.000 --> 00:01.000\nx";

    let subtitle = parse(document).unwrap();

    assert_eq!(subtitle.cues.len(), 1);
}

#[test]
fn skips_header_metadata() {
    let subtitle =
        parse("WEBVTT\nKind: captions\nLanguage: en\n\n00:00.000 --> 00:01.000\nx").unwrap();

    assert_eq!(subtitle.cues.len(), 1);
}

#[test]
fn sorts_cues_by_start_then_end() {
    let document = "WEBVTT\n\n00:05.000 --> 00:06.000\nlast\n\n00:01.000 --> 00:04.000\nsecond\n\n00:01.000 --> 00:02.000\nfirst";

    let subtitle = parse(document).unwrap();

    let texts: Vec<&str> = subtitle.cues.iter().map(|cue| cue.text.as_str()).collect();
    assert_eq!(texts, ["first", "second", "last"]);
}

#[test]
fn keeps_overlapping_cues_as_authored() {
    let document = "WEBVTT\n\n00:00.000 --> 00:03.000\nA\n\n00:02.000 --> 00:05.000\nB";

    let subtitle = parse(document).unwrap();

    assert_eq!(
        subtitle
            .cues
            .iter()
            .map(|cue| (cue.start, cue.end))
            .collect::<Vec<_>>(),
        [(0, 3_000), (2_000, 5_000)]
    );
}

#[test]
fn reads_crlf_endings_and_a_byte_order_mark() {
    let subtitle = parse("\u{feff}WEBVTT\r\n\r\n00:00.000 --> 00:01.000\r\nx\r\n").unwrap();

    assert_eq!(subtitle.cues[0].text, "x");
}

#[test]
fn rejects_an_end_before_its_start() {
    let error = parse("WEBVTT\n\n00:05.000 --> 00:02.000\nx").unwrap_err();

    assert!(matches!(error, VttError::NegativeDuration(5_000)));
}

#[test]
fn rejects_a_malformed_cue_rather_than_dropping_it() {
    let document = "WEBVTT\n\n00:00.000 --> 00:01.000\nfine\n\n00:01.000 --> broken\nx";

    let error = parse(document).unwrap_err();

    assert!(matches!(error, VttError::MalformedTimestamp(_)));
}

#[test]
fn parses_both_timestamp_forms() {
    assert_eq!(
        (
            parse_timestamp("01:02:03.456").unwrap(),
            parse_timestamp("02:03.456").unwrap()
        ),
        (3_723_456, 123_456)
    );
}

#[test]
fn rejects_a_timestamp_without_milliseconds() {
    assert!(parse_timestamp("00:05").is_err());
}

#[test]
fn rejects_milliseconds_that_are_not_three_digits() {
    assert!(parse_timestamp("00:05.5").is_err());
}

#[test]
fn rejects_a_timestamp_without_minutes() {
    assert!(parse_timestamp("05.000").is_err());
}

#[test]
fn rejects_a_timestamp_with_too_many_fields() {
    assert!(parse_timestamp("1:00:00:05.000").is_err());
}

#[test]
fn rejects_out_of_range_minutes_and_seconds() {
    assert!(parse_timestamp("75:00.000").is_err() && parse_timestamp("00:75.000").is_err());
}

#[test]
fn rejects_hours_that_overflow_milliseconds() {
    assert!(parse_timestamp("5124095576030431:00:00.000").is_err());
}

#[test]
fn rejects_a_garbage_timestamp() {
    assert!(parse_timestamp("abc").is_err());
}

#[test]
fn a_cue_ending_past_what_a_cue_counts_is_malformed() {
    let error = parse("WEBVTT\n\n00:00.000 --> 1200:00:00.000\nx").unwrap_err();

    assert!(matches!(error, VttError::MalformedTimestamp(text) if text == "1200:00:00.000"));
}

#[test]
fn a_timing_line_after_an_identifier_keeps_the_text_after_it() {
    let subtitle = parse("WEBVTT\n\n1\n00:00:01.000 --> 00:00:02.500\nfirst line\nsecond line\n").unwrap();

    assert_eq!(
        subtitle.cues,
        vec![Cue {
            start: 1_000,
            end: 2_500,
            text: "first line\nsecond line".to_string(),
        }]
    );
}

#[test]
fn a_block_without_a_timing_line_is_skipped() {
    let subtitle = parse("WEBVTT\n\njust some words\nand more\n\n00:00.000 --> 00:01.000\nx").unwrap();

    assert_eq!(subtitle.cues.len(), 1);
}
