use dyndo::subtitle::{Cue, Subtitle};

fn subtitle() -> Subtitle {
    Subtitle {
        cues: vec![
            Cue {
                start: 500,
                end: 1_500,
                text: "first".into(),
            },
            Cue {
                start: 1_000,
                end: 2_500,
                text: "second".into(),
            },
        ],
    }
}

#[test]
fn segments_splits_samples_when_active_cues_change() {
    let subtitle = subtitle();

    let segments = subtitle.segments(2_000, &[]);

    assert_eq!(
        segments[0]
            .samples()
            .iter()
            .map(|sample| (sample.start(), sample.end(), sample.cues().len()))
            .collect::<Vec<_>>(),
        [
            (0, 500, 0),
            (500, 1_000, 1),
            (1_000, 1_500, 2),
            (1_500, 2_000, 1)
        ]
    );
}

#[test]
fn segments_uses_boundaries_in_addition_to_the_duration_grid() {
    let subtitle = subtitle();

    let segments = subtitle.segments(2_000, &[750, 750, 3_000]);

    assert_eq!(
        segments
            .iter()
            .map(|segment| segment.start())
            .collect::<Vec<_>>(),
        [0, 750, 2_000]
    );
}

#[test]
fn segments_with_zero_duration_only_uses_boundaries() {
    let subtitle = subtitle();

    let segments = subtitle.segments(0, &[1_000]);

    assert_eq!(
        segments
            .iter()
            .map(|segment| segment.start())
            .collect::<Vec<_>>(),
        [0, 1_000]
    );
}

#[test]
fn segments_excludes_a_cue_from_the_sample_at_its_end() {
    let subtitle = Subtitle {
        cues: vec![Cue {
            start: 0,
            end: 1_000,
            text: "cue".into(),
        }],
    };

    let segments = subtitle.segments(2_000, &[]);

    assert_eq!(segments[0].samples().last().unwrap().cues().len(), 1);
}

#[test]
fn segments_returns_no_segments_for_an_empty_subtitle() {
    assert!(Subtitle::default().segments(1_000, &[]).is_empty());
}

#[test]
fn sample_durations_and_cues_follow_the_timeline() {
    let subtitle = subtitle();

    let segments = subtitle.segments(0, &[]);
    let sample = &segments[0].samples()[2];

    assert_eq!(
        (
            sample.duration(),
            sample.cues().iter().map(|cue| cue.text.as_str()).collect::<Vec<_>>()
        ),
        (500, vec!["first", "second"])
    );
}

#[test]
fn duration_is_the_latest_end() {
    assert_eq!((subtitle().duration(), Subtitle::default().duration()), (2_500, 0));
}

#[test]
fn slice_cuts_overlapping_cues_to_the_interval() {
    let sliced = subtitle().slice(1_200, 2_000).unwrap();

    assert_eq!(
        sliced
            .cues
            .iter()
            .map(|cue| (cue.start, cue.end, cue.text.as_str()))
            .collect::<Vec<_>>(),
        [(1_200, 1_500, "first"), (1_200, 2_000, "second")]
    );
}

#[test]
fn slice_drops_cues_outside_the_interval() {
    let sliced = subtitle().slice(1_500, 1_800).unwrap();

    assert_eq!(
        sliced.cues,
        vec![Cue {
            start: 1_500,
            end: 1_800,
            text: "second".into(),
        }]
    );
}

#[test]
fn slice_of_an_empty_interval_is_none() {
    assert!(subtitle().slice(1_000, 1_000).is_none() && subtitle().slice(2_000, 1_000).is_none());
}

#[test]
fn slicing_twice_slices_the_intersection_of_the_intervals() {
    let subtitle = subtitle();
    let twice = subtitle.slice(0, 1_200).unwrap().slice(700, 3_000).unwrap();
    assert_eq!(twice, subtitle.slice(700, 1_200).unwrap());
    let again = subtitle.slice(600, 1_800).unwrap();
    assert_eq!(again.slice(600, 1_800).unwrap(), again);
}

#[test]
fn every_cue_in_a_text_sample_lasts_to_its_end() {
    let subtitle = subtitle();
    for segment in subtitle.segments(700, &[1_100]) {
        for sample in segment.samples() {
            for cue in sample.cues() {
                assert!(cue.start <= sample.start() && cue.end >= sample.end());
            }
        }
    }
}
