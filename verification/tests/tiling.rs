use dyndo::media::{frame_rate, greatest_common_divisor, sample_entry, CmafError};
use dyndo::subtitle::{Cue, Subtitle};
use dyndo::tiling::{group, tile, Sample};

fn subtitle(cues: &[(u32, u32, &str)]) -> Subtitle {
    Subtitle {
        cues: cues
            .iter()
            .map(|&(start, end, text)| Cue {
                start,
                end,
                text: text.to_string(),
            })
            .collect(),
    }
}

fn spans(samples: &[Sample]) -> Vec<(u64, u64, Vec<&str>)> {
    samples
        .iter()
        .map(|s| (s.start_ms, s.end_ms, s.texts.iter().map(String::as_str).collect()))
        .collect()
}

#[test]
fn tiles_gaps_between_cues() {
    let samples = tile(&subtitle(&[(0, 1_000, "A"), (2_000, 3_000, "B")]), &[]);

    assert_eq!(
        spans(&samples),
        [
            (0, 1_000, vec!["A"]),
            (1_000, 2_000, vec![]),
            (2_000, 3_000, vec!["B"])
        ]
    );
}

#[test]
fn simultaneous_cues_share_one_sample() {
    let samples = tile(&subtitle(&[(0, 2_000, "A"), (1_000, 3_000, "B")]), &[]);

    assert_eq!(spans(&samples)[1], (1_000, 2_000, vec!["A", "B"]));
}

#[test]
fn a_track_starting_after_time_zero_opens_with_a_gap() {
    let samples = tile(&subtitle(&[(2_000, 3_000, "A")]), &[]);

    assert_eq!(spans(&samples), [(0, 2_000, vec![]), (2_000, 3_000, vec!["A"])]);
}

#[test]
fn a_splice_point_cuts_a_cue_across_two_samples() {
    let samples = tile(&subtitle(&[(0, 6_000, "A")]), &[2_000, 0, 6_000, 9_000]);

    assert_eq!(spans(&samples), [(0, 2_000, vec!["A"]), (2_000, 6_000, vec!["A"])]);
}

#[test]
fn a_subtitle_without_cues_tiles_into_nothing() {
    assert!(tile(&Subtitle::default(), &[1_000]).is_empty());
    assert!(tile(&subtitle(&[(0, 0, "blink")]), &[]).is_empty());
}

#[test]
fn a_zero_minimum_gives_every_sample_its_own_fragment() {
    let samples = tile(&subtitle(&[(0, 1_000, "A"), (2_000, 3_000, "B")]), &[]);

    assert_eq!(group(&samples, &[], 0), [(0, 1), (1, 2), (2, 3)]);
}

#[test]
fn samples_are_grouped_until_the_minimum() {
    let samples = tile(
        &subtitle(&[(0, 1_000, "A"), (2_000, 3_000, "B"), (4_000, 5_000, "C")]),
        &[],
    );

    assert_eq!(group(&samples, &[], 3_000), [(0, 3), (3, 5)]);
}

#[test]
fn a_fragment_closes_at_a_splice_point() {
    let samples = tile(&subtitle(&[(0, 6_000, "A")]), &[2_000]);

    assert_eq!(group(&samples, &[2_000], 10_000), [(0, 1), (1, 2)]);
}

#[test]
fn splice_points_outside_the_track_are_ignored() {
    let samples = tile(&subtitle(&[(0, 2_000, "A")]), &[0, 2_000, 9_000]);

    assert_eq!(group(&samples, &[0, 2_000, 9_000], 10_000), [(0, 1)]);
}

#[test]
fn nothing_to_group_yields_no_groups() {
    assert!(group(&[], &[1_000], 0).is_empty());
}

#[test]
fn a_sample_lasts_its_own_span() {
    let sample = Sample { start_ms: 1_000, end_ms: 3_500, texts: Vec::new() };

    assert_eq!(sample.duration_ms(), 2_500);
}

#[test]
fn greatest_common_divisor_reduces_a_frame_rate() {
    assert_eq!(
        (
            greatest_common_divisor(90_000, 3_600),
            greatest_common_divisor(30_000, 1_001),
            greatest_common_divisor(0, 7),
            greatest_common_divisor(7, 0)
        ),
        (3_600, 1, 7, 7)
    );
}

#[test]
fn frame_rate_is_a_reduced_fraction() {
    assert_eq!(frame_rate(90_000, Some(3_600)).unwrap(), "25/1");
    assert_eq!(frame_rate(30_000, Some(1_001)).unwrap(), "30000/1001");
    assert_eq!(frame_rate(0, Some(1_001)), Err(CmafError::MissingFrameRate));
    assert_eq!(frame_rate(90_000, Some(0)), Err(CmafError::MissingFrameRate));
    assert_eq!(frame_rate(90_000, None), Err(CmafError::MissingFrameRate));
}

#[test]
fn sample_entry_is_the_codec_before_its_first_dot() {
    assert_eq!(
        (sample_entry("avc1.64001f"), sample_entry("mp4a.40.2"), sample_entry("wvtt")),
        ("avc1".to_string(), "mp4a".to_string(), "wvtt".to_string())
    );
}
