use dyndo::fragmenter;
use dyndo::vtt::{self, VttError};

/// Overlapping cues, a gap, and a splice point that falls inside a cue.
const SAMPLE_DOCUMENT: &str = "WEBVTT\n\n00:00.000 --> 00:03.000\nWelcome to dyndo\n\n00:02.000 --> 00:05.000\nOverlapping caption\n\n00:10.000 --> 00:12.500\nAfter a gap\n";

fn sample_subtitle() -> dyndo::subtitle::Subtitle {
    vtt::parse(SAMPLE_DOCUMENT).unwrap()
}

#[test]
fn pipeline_parses_the_sample_document() {
    let subtitle = sample_subtitle();

    assert_eq!(
        subtitle
            .cues
            .iter()
            .map(|cue| (cue.start, cue.end, cue.text.as_str()))
            .collect::<Vec<_>>(),
        [
            (0, 3_000, "Welcome to dyndo"),
            (2_000, 5_000, "Overlapping caption"),
            (10_000, 12_500, "After a gap"),
        ]
    );
}

#[test]
fn dividing_and_merging_returns_the_authored_cues() {
    let subtitle = sample_subtitle();

    for (boundaries, length) in [
        (&[][..], 0),
        (&[][..], 1_000),
        (&[7_400][..], 4_000),
        (&[2_500, 11_000][..], 0),
    ] {
        let fragments = fragmenter::fragment(&subtitle, boundaries, length);

        assert_eq!(
            fragmenter::merge(&fragments),
            subtitle,
            "lost cues at boundaries {boundaries:?} and length {length}"
        );
    }
}

#[test]
fn a_malformed_document_is_rejected() {
    assert!(matches!(
        vtt::parse("00:00.000 --> 00:01.000\nx"),
        Err(VttError::MissingSignature)
    ));
}

#[test]
fn same_text_back_to_back_merges_into_one_cue() {
    let subtitle =
        vtt::parse("WEBVTT\n\n00:00.000 --> 00:01.000\nsame\n\n00:01.000 --> 00:02.000\nsame\n")
            .unwrap();

    let merged = fragmenter::merge(&fragmenter::fragment(&subtitle, &[], 0));

    assert_eq!(
        merged
            .cues
            .iter()
            .map(|cue| (cue.start, cue.end, cue.text.as_str()))
            .collect::<Vec<_>>(),
        [(0, 2_000, "same")]
    );
}
