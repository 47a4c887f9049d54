use dyndo::fragmenter::{fragment, merge, Fragment};
use dyndo::subtitle::{Cue, Subtitle};

fn subtitle(cues: &[(u32, u32, &str)]) -> Subtitle {
    Subtitle {
        cues: cues
            .iter()
            .map(|&(start, end, text)| Cue {
                start,
                end,
                text: text.to_string(),
            })
            .collect(),
    }
}

fn spans(fragments: &[Fragment]) -> Vec<(u32, u32)> {
    fragments
        .iter()
        .map(|fragment| (fragment.start, fragment.end))
        .collect()
}

fn samples_of(fragment: &Fragment) -> Vec<(u32, u32, Vec<&str>)> {
    fragment
        .samples
        .iter()
        .map(|sample| {
            let texts = sample.cues.iter().map(|cue| cue.text.as_str()).collect();
            (sample.start, sample.end, texts)
        })
        .collect()
}

#[test]
fn a_subtitle_without_divisions_is_one_fragment() {
    let subtitle = subtitle(&[(0, 1_000, "A"), (2_000, 3_000, "B")]);

    assert_eq!(spans(&fragment(&subtitle, &[], 0)), [(0, 3_000)]);
}

#[test]
fn a_boundary_ends_a_fragment() {
    let subtitle = subtitle(&[(0, 6_000, "A")]);

    assert_eq!(
        spans(&fragment(&subtitle, &[2_000], 0)),
        [(0, 2_000), (2_000, 6_000)]
    );
}

#[test]
fn a_length_ends_fragments_on_a_grid() {
    let subtitle = subtitle(&[(0, 1_000, "A"), (2_000, 3_000, "B"), (4_000, 5_000, "C")]);

    assert_eq!(
        spans(&fragment(&subtitle, &[], 2_000)),
        [(0, 2_000), (2_000, 4_000), (4_000, 5_000)]
    );
}

#[test]
fn boundaries_and_the_grid_combine() {
    let subtitle = subtitle(&[(0, 10_000, "A")]);

    assert_eq!(
        spans(&fragment(&subtitle, &[7_400], 4_000)),
        [(0, 4_000), (4_000, 7_400), (7_400, 8_000), (8_000, 10_000)]
    );
}

#[test]
fn divisions_outside_the_track_are_ignored() {
    let subtitle = subtitle(&[(0, 2_000, "A")]);

    assert_eq!(
        spans(&fragment(&subtitle, &[0, 2_000, 9_000], 2_000)),
        [(0, 2_000)]
    );
}

#[test]
fn a_repeated_division_ends_one_fragment() {
    let subtitle = subtitle(&[(0, 4_000, "A")]);

    assert_eq!(
        spans(&fragment(&subtitle, &[2_000, 2_000], 2_000)),
        [(0, 2_000), (2_000, 4_000)]
    );
}

#[test]
fn text_tracks_sharing_a_clock_divide_alike() {
    let one = subtitle(&[(0, 1_000, "a"), (5_000, 9_000, "b")]);
    let other = subtitle(&[(0, 4_000, "x"), (4_500, 9_000, "y"), (8_000, 9_000, "z")]);

    assert_eq!(
        spans(&fragment(&one, &[7_400], 3_000)),
        spans(&fragment(&other, &[7_400], 3_000))
    );
}

#[test]
fn a_subtitle_without_cues_yields_no_fragments() {
    let subtitle = Subtitle::default();

    assert!(fragment(&subtitle, &[1_000], 1_000).is_empty());
}

#[test]
fn samples_tile_a_fragment_without_holes() {
    let subtitle = subtitle(&[(0, 1_000, "A"), (2_000, 3_000, "B")]);

    assert_eq!(
        samples_of(&fragment(&subtitle, &[], 0)[0]),
        [
            (0, 1_000, vec!["A"]),
            (1_000, 2_000, Vec::new()),
            (2_000, 3_000, vec!["B"]),
        ]
    );
}

#[test]
fn a_track_starting_after_time_zero_opens_with_an_empty_sample() {
    let subtitle = subtitle(&[(2_000, 3_000, "A")]);

    assert_eq!(
        samples_of(&fragment(&subtitle, &[], 0)[0])[0],
        (0, 2_000, Vec::new())
    );
}

#[test]
fn cues_on_screen_together_share_a_sample() {
    let subtitle = subtitle(&[(0, 2_000, "A"), (1_000, 3_000, "B")]);

    assert_eq!(
        samples_of(&fragment(&subtitle, &[], 0)[0]),
        [
            (0, 1_000, vec!["A"]),
            (1_000, 2_000, vec!["A", "B"]),
            (2_000, 3_000, vec!["B"]),
        ]
    );
}

#[test]
fn a_cue_spanning_a_division_is_on_screen_in_both_fragments() {
    let subtitle = subtitle(&[(0, 6_000, "A")]);
    let fragments = fragment(&subtitle, &[2_000], 0);

    assert_eq!(
        (samples_of(&fragments[0]), samples_of(&fragments[1])),
        (vec![(0, 2_000, vec!["A"])], vec![(2_000, 6_000, vec!["A"])])
    );
}

#[test]
fn merging_returns_the_cues_a_subtitle_was_authored_with() {
    let subtitle = subtitle(&[(0, 1_000, "A"), (2_000, 3_000, "B"), (4_000, 5_000, "C")]);

    assert_eq!(merge(&fragment(&subtitle, &[7_400], 2_000)), subtitle);
}

#[test]
fn merging_recovers_a_cue_the_samples_split() {
    // "B" coming and going cuts "A" across three samples.
    let subtitle = subtitle(&[(0, 6_000, "A"), (1_000, 3_000, "B")]);

    assert_eq!(merge(&fragment(&subtitle, &[], 0)), subtitle);
}

#[test]
fn merging_recovers_a_cue_that_spans_fragments() {
    let subtitle = subtitle(&[(0, 6_000, "A")]);

    assert_eq!(merge(&fragment(&subtitle, &[2_000], 2_000)), subtitle);
}

#[test]
fn merging_keeps_cues_sharing_a_start_apart() {
    let subtitle = subtitle(&[(1_000, 2_000, "short"), (1_000, 4_000, "long")]);

    assert_eq!(merge(&fragment(&subtitle, &[], 0)), subtitle);
}

#[test]
fn merging_cues_carrying_the_same_text_back_to_back_yields_one() {
    let authored = subtitle(&[(0, 1_000, "same"), (1_000, 2_000, "same")]);

    assert_eq!(
        merge(&fragment(&authored, &[], 0)),
        subtitle(&[(0, 2_000, "same")])
    );
}

#[test]
fn merging_nothing_yields_a_subtitle_without_cues() {
    assert_eq!(merge(&[]), Subtitle::default());
}

#[test]
fn a_fragment_no_cue_reaches_holds_one_empty_sample() {
    let subtitle = subtitle(&[(0, 1_000, "A"), (4_000, 5_000, "B")]);

    assert_eq!(
        samples_of(&fragment(&subtitle, &[], 2_000)[1]),
        [(2_000, 4_000, Vec::new())]
    );
}

#[test]
fn durations_span_their_own_interval() {
    let subtitle = subtitle(&[(0, 3_000, "A")]);
    let fragments = fragment(&subtitle, &[2_000], 0);

    assert_eq!(
        (fragments[0].duration(), fragments[0].samples[0].duration()),
        (2_000, 2_000)
    );
}

#[test]
fn merging_overlapping_cues_cut_by_every_division_recovers_them() {
    let subtitle = subtitle(&[(0, 4_000, "A"), (1_000, 2_000, "B"), (1_000, 3_000, "C")]);

    let merged = merge(&fragment(&subtitle, &[1_500], 1_000));

    assert_eq!(merged, subtitle);
}

#[test]
fn a_zero_length_cue_is_lost_by_the_round_trip() {
    let authored = subtitle(&[(1_000, 1_000, "blink"), (0, 2_000, "A")]);

    assert_eq!(merge(&fragment(&authored, &[], 0)), subtitle(&[(0, 2_000, "A")]));
}

#[test]
fn merging_recovers_same_text_cues_nested_or_repeated() {
    let nested = subtitle(&[(0, 4_000, "x"), (1_000, 2_000, "x")]);
    let repeated = subtitle(&[(0, 2_000, "x"), (0, 2_000, "x"), (3_000, 4_000, "x")]);

    assert_eq!(merge(&fragment(&nested, &[], 1_000)), nested);
    assert_eq!(merge(&fragment(&repeated, &[1_000], 0)), repeated);
}

#[test]
fn same_text_cues_where_the_earlier_ends_inside_the_later_are_not_recovered() {
    let staggered = subtitle(&[(0, 2_000, "x"), (1_000, 3_000, "x")]);

    assert_eq!(
        merge(&fragment(&staggered, &[], 0)),
        subtitle(&[(0, 3_000, "x"), (1_000, 2_000, "x")])
    );
}

#[test]
fn merge_ignores_the_spans_cues_arrive_with() {
    let authored = subtitle(&[(0, 1_500, "one"), (1_000, 2_500, "two")]);
    let fragments = fragment(&authored, &[], 1_000);
    let mut moved: Vec<Fragment> = fragments.clone();
    for fragment in &mut moved {
        for sample in &mut fragment.samples {
            for cue in &mut sample.cues {
                cue.start = 7;
                cue.end = 9;
            }
        }
    }
    assert_eq!(merge(&moved), merge(&fragments));
    assert_eq!(merge(&moved), authored);
}

#[test]
fn grid_lists_the_multiples_below_the_end_in_order() {
    assert_eq!(dyndo::timeline::grid(300, 1_000), [300, 600, 900]);
    assert_eq!(dyndo::timeline::grid(500, 1_000), [500]);
    assert!(dyndo::timeline::grid(0, 1_000).is_empty());
    let top = dyndo::timeline::grid(u32::MAX / 2, u32::MAX);
    assert_eq!(top, [u32::MAX / 2, u32::MAX / 2 * 2]);
}
