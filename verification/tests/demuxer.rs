use dyndo::demuxer::{unpack, unpack_fragments, UnpackError};
use dyndo::subtitle::{Cue, Subtitle};
use dyndo::fragmenter::merge;
use dyndo::muxer::pack;
use mp4_atom::{Any, DecodeMaybe, Encode, Mdat, Mfhd, Moof, Tfdt, Tfhd, Traf, Trun, TrunEntry, TrunSamples};

fn subtitle(cues: &[(u32, u32, &str)]) -> Subtitle {
    Subtitle {
        cues: cues
            .iter()
            .map(|&(start, end, text)| Cue {
                start,
                end,
                text: text.to_string(),
            })
            .collect(),
    }
}

fn cue_box(kind: &[u8; 4], body: &[u8]) -> Vec<u8> {
    let mut bytes = u32::try_from(body.len() + 8).unwrap().to_be_bytes().to_vec();
    bytes.extend_from_slice(kind);
    bytes.extend_from_slice(body);
    bytes
}

/// A `vttc` carrying `text` in its `payl`.
fn vttc(text: &str) -> Vec<u8> {
    cue_box(b"vttc", &cue_box(b"payl", text.as_bytes()))
}

/// The empty cue box a sample showing nothing holds.
fn vtte() -> Vec<u8> {
    cue_box(b"vtte", &[])
}

/// A fragment built by hand. Each entry is a sample's `(duration, size)`.
fn handmade(base: Option<u64>, entries: &[(Option<u32>, Option<u32>)], data: &[u8]) -> Vec<u8> {
    let header = Moof {
        mfhd: Mfhd { sequence_number: 1 },
        traf: vec![Traf {
            tfhd: Tfhd {
                track_id: 1,
                default_base_is_moof: true,
                ..Tfhd::default()
            },
            tfdt: base.map(|base_media_decode_time| Tfdt {
                base_media_decode_time,
            }),
            trun: vec![Trun {
                data_offset: Some(0),
                samples: TrunSamples::Explicit(
                    entries
                        .iter()
                        .map(|&(duration, size)| TrunEntry {
                            duration,
                            size,
                            ..TrunEntry::default()
                        })
                        .collect(),
                ),
            }],
            ..Traf::default()
        }],
    };

    let mut bytes = Vec::new();
    header.encode(&mut bytes).unwrap();
    Mdat {
        data: data.to_vec(),
    }
    .encode(&mut bytes)
    .unwrap();

    bytes
}

/// A fragment from `base` holding samples of the given durations and cue boxes.
fn fragment(base: u64, samples: &[(u32, Vec<u8>)]) -> Vec<u8> {
    let entries: Vec<(Option<u32>, Option<u32>)> = samples
        .iter()
        .map(|(duration, bytes)| (Some(*duration), Some(u32::try_from(bytes.len()).unwrap())))
        .collect();
    let data: Vec<u8> = samples.iter().flat_map(|(_, bytes)| bytes.clone()).collect();
    handmade(Some(base), &entries, &data)
}

#[test]
fn wvtt_rejects_a_fragment_without_a_base_decode_time() {
    let fragment = handmade(None, &[(Some(1_000), Some(0))], &[]);

    let error = unpack(&fragment, 1_000).unwrap_err();

    assert!(matches!(error, UnpackError::MissingBaseTime));
}

#[test]
fn wvtt_rejects_a_sample_without_a_duration() {
    let fragment = handmade(Some(0), &[(None, Some(0))], &[]);

    let error = unpack(&fragment, 1_000).unwrap_err();

    assert!(matches!(error, UnpackError::MissingSampleTiming));
}

#[test]
fn wvtt_rejects_samples_that_overrun_their_data() {
    let fragment = handmade(Some(0), &[(Some(1_000), Some(64))], &[0; 4]);

    let error = unpack(&fragment, 1_000).unwrap_err();

    assert!(matches!(error, UnpackError::SampleOutOfRange));
}

#[test]
fn wvtt_rejects_a_time_past_the_milliseconds_a_cue_counts() {
    let fragment = handmade(Some(5_000_000_000), &[(Some(0), Some(0))], &[]);

    let error = unpack(&fragment, 1_000).unwrap_err();

    assert!(matches!(error, UnpackError::TimeOverflow(5_000_000_000)));
}

#[test]
fn unpacks_cues_the_samples_split() {
    let segment = fragment(
        0,
        &[
            (1_000, vttc("A")),
            (1_000, [vttc("A"), vttc("B")].concat()),
            (1_000, vttc("B")),
        ],
    );

    let unpacked = unpack(&segment, 1_000).unwrap();

    assert_eq!(unpacked, subtitle(&[(0, 2_000, "A"), (1_000, 3_000, "B")]));
}

#[test]
fn handmade_segment_merges_a_cue_across_its_fragments() {
    let segment = [
        fragment(0, &[(2_000, vttc("A"))]),
        fragment(2_000, &[(2_000, vttc("A")), (1_000, vtte())]),
    ]
    .concat();

    let unpacked = unpack(&segment, 1_000).unwrap();

    assert_eq!(unpacked, subtitle(&[(0, 4_000, "A")]));
}

#[test]
fn handmade_gap_reads_as_no_cue() {
    let segment = fragment(0, &[(2_000, vtte()), (1_000, vttc("A"))]);

    let unpacked = unpack(&segment, 1_000).unwrap();

    assert_eq!(unpacked, subtitle(&[(2_000, 3_000, "A")]));
}

#[test]
fn handmade_segment_converts_media_time() {
    let segment = fragment(0, &[(1_000, vttc("Hello"))]);

    let unpacked = unpack(&segment, 500).unwrap();

    assert_eq!(unpacked, subtitle(&[(0, 2_000, "Hello")]));
}

#[test]
fn sorts_cues_sharing_a_start_by_their_end() {
    let segment = fragment(
        1_000,
        &[
            (1_000, [vttc("long"), vttc("short")].concat()),
            (2_000, vttc("long")),
        ],
    );

    let unpacked = unpack(&segment, 1_000).unwrap();

    assert_eq!(unpacked, subtitle(&[(1_000, 2_000, "short"), (1_000, 4_000, "long")]));
}

#[test]
fn handmade_truncated_segment_is_rejected() {
    let mut truncated = fragment(0, &[(2_000, vttc("Hello"))]);
    truncated.truncate(truncated.len() - 4);

    let error = unpack(&truncated, 1_000).unwrap_err();

    assert!(matches!(error, UnpackError::UnpairedFragment));
}

#[test]
fn rejects_data_without_a_header_and_two_headers_in_a_row() {
    let data_alone = Mdat { data: vec![0; 4] };
    let mut bytes = Vec::new();
    data_alone.encode(&mut bytes).unwrap();
    assert!(matches!(unpack(&bytes, 1_000), Err(UnpackError::UnpairedFragment)));

    let first = fragment(0, &[(1_000, vttc("A"))]);
    let header_only = &first[..first.len() - 8 - vttc("A").len()];
    let doubled = [header_only, header_only].concat();
    assert!(matches!(unpack(&doubled, 1_000), Err(UnpackError::UnpairedFragment)));
}

#[test]
fn rejects_a_cue_box_without_a_payload() {
    let segment = fragment(0, &[(1_000, cue_box(b"vttc", &cue_box(b"sttg", b"align:start")))]);

    assert!(matches!(unpack(&segment, 1_000), Err(UnpackError::Atom(_))));
}

#[test]
fn an_empty_segment_holds_no_cues() {
    assert_eq!(unpack(&[], 1_000).unwrap(), Subtitle::default());
}

/// The segment a run of fragments makes: each sample's cues as `vttc` boxes, or a
/// `vtte` where nothing is on screen, each fragment timed from its start.
fn segment_of(fragments: &[dyndo::fragmenter::Fragment]) -> Vec<u8> {
    fragments
        .iter()
        .flat_map(|f| {
            let samples: Vec<(u32, Vec<u8>)> = f
                .samples
                .iter()
                .map(|s| {
                    let bytes = if s.cues.is_empty() {
                        vtte()
                    } else {
                        s.cues.iter().flat_map(|c| vttc(&c.text)).collect()
                    };
                    (s.end - s.start, bytes)
                })
                .collect();
            fragment(u64::from(f.start), &samples)
        })
        .collect()
}

#[test]
fn a_document_survives_the_round_trip_through_a_segment() {
    let authored = dyndo::vtt::parse(
        "WEBVTT\n\n00:00.000 --> 00:03.000\nWelcome to dyndo\n\n00:02.000 --> 00:05.000\nOverlapping caption\n\n00:10.000 --> 00:12.500\nAfter a gap\n",
    )
    .unwrap();

    for (boundaries, length) in [(&[][..], 0), (&[7_400][..], 4_000), (&[2_500, 11_000][..], 1_000)] {
        let fragments = dyndo::fragmenter::fragment(&authored, boundaries, length);

        assert_eq!(unpack(&segment_of(&fragments), 1_000).unwrap(), authored);
    }
}

#[test]
fn unpacking_a_segment_agrees_with_merging_its_fragments() {
    let authored = subtitle(&[(0, 1_000, "same"), (1_000, 2_000, "same"), (500, 1_500, "other")]);
    let fragments = dyndo::fragmenter::fragment(&authored, &[1_200], 700);

    assert_eq!(
        unpack(&segment_of(&fragments), 1_000).unwrap(),
        dyndo::fragmenter::merge(&fragments)
    );
}

#[test]
fn mod_rejects_a_fragment_without_a_base_decode_time() {
    let fragment = handmade(None, &[(Some(1_000), Some(0))], &[]);

    let error = unpack_fragments(&fragment, 1_000).unwrap_err();

    assert!(matches!(error, UnpackError::MissingBaseTime));
}

#[test]
fn mod_rejects_a_sample_without_a_duration() {
    let fragment = handmade(Some(0), &[(None, Some(0))], &[]);

    let error = unpack_fragments(&fragment, 1_000).unwrap_err();

    assert!(matches!(error, UnpackError::MissingSampleTiming));
}

#[test]
fn mod_rejects_samples_that_overrun_their_data() {
    let fragment = handmade(Some(0), &[(Some(1_000), Some(64))], &[0; 4]);

    let error = unpack_fragments(&fragment, 1_000).unwrap_err();

    assert!(matches!(error, UnpackError::SampleOutOfRange));
}

#[test]
fn mod_rejects_a_time_past_the_milliseconds_a_cue_counts() {
    let fragment = handmade(Some(5_000_000_000), &[(Some(0), Some(0))], &[]);

    let error = unpack_fragments(&fragment, 1_000).unwrap_err();

    assert!(matches!(error, UnpackError::TimeOverflow(5_000_000_000)));
}

#[test]
fn every_fragment_of_a_segment_comes_back_with_its_span() {
    let authored = subtitle(&[(0, 3_000, "Welcome"), (2_000, 5_000, "Overlap"), (10_000, 12_500, "Gap")]);
    let fragments = dyndo::fragmenter::fragment(&authored, &[], 4_000);

    let unpacked = unpack_fragments(&segment_of(&fragments), 1_000).unwrap();

    let spans = |fragments: &[dyndo::fragmenter::Fragment]| {
        fragments
            .iter()
            .map(|f| (f.start, f.end, f.samples.iter().map(|s| (s.start, s.end, s.cues.len())).collect::<Vec<_>>()))
            .collect::<Vec<_>>()
    };
    assert_eq!(spans(&unpacked), spans(&fragments));
    assert_eq!(dyndo::fragmenter::merge(&unpacked), authored);
}

#[test]
fn a_fragment_holding_no_samples_spans_nothing() {
    let unpacked = unpack_fragments(&handmade(Some(3_000), &[], &[]), 1_000).unwrap();

    assert_eq!((unpacked.len(), unpacked[0].start, unpacked[0].end), (1, 0, 0));
}

/// The bytes a segment covering the whole packed track resolves to: everything
/// past the `sidx`, where the first fragment's `styp` begins.
fn packed_segment(subtitle: &Subtitle, boundaries: &[u32], length: u32) -> Vec<u8> {
    let packed = pack(&dyndo::fragmenter::fragment(subtitle, boundaries, length)).unwrap();
    let mut buf = packed.as_slice();
    loop {
        let offset = packed.len() - buf.len();
        match Any::decode_maybe(&mut buf).unwrap() {
            Some(Any::Styp(_)) => return packed[offset..].to_vec(),
            Some(_) => continue,
            None => panic!("packed track carries no fragments"),
        }
    }
}

/// Unpacking a packed segment into fragments and merging them.
fn merged(segment: &[u8], timescale: u32) -> Subtitle {
    merge(&unpack_fragments(segment, timescale).unwrap())
}

#[test]
fn wvtt_unpacks_a_single_cue() {
    let subtitle = subtitle(&[(0, 2_000, "Hello")]);
    assert_eq!(unpack(&packed_segment(&subtitle, &[], 0), 1_000).unwrap(), subtitle);
}

#[test]
fn wvtt_merges_a_cue_the_samples_split() {
    let subtitle = subtitle(&[(0, 6_000, "A"), (1_000, 3_000, "B")]);
    assert_eq!(unpack(&packed_segment(&subtitle, &[], 0), 1_000).unwrap(), subtitle);
}

#[test]
fn wvtt_merges_a_cue_across_the_fragments_of_one_segment() {
    let subtitle = subtitle(&[(0, 6_000, "A")]);
    assert_eq!(unpack(&packed_segment(&subtitle, &[], 2_000), 1_000).unwrap(), subtitle);
}

#[test]
fn wvtt_keeps_cues_sharing_a_start_apart() {
    let subtitle = subtitle(&[(1_000, 2_000, "short"), (1_000, 4_000, "long")]);
    assert_eq!(unpack(&packed_segment(&subtitle, &[], 0), 1_000).unwrap(), subtitle);
}

#[test]
fn wvtt_reads_an_interval_showing_nothing_as_no_cue() {
    let subtitle = subtitle(&[(2_000, 3_000, "A")]);
    assert_eq!(unpack(&packed_segment(&subtitle, &[], 0), 1_000).unwrap(), subtitle);
}

#[test]
fn wvtt_merges_two_cues_carrying_the_same_text_back_to_back() {
    let authored = subtitle(&[(0, 1_000, "same"), (1_000, 2_000, "same")]);
    assert_eq!(
        unpack(&packed_segment(&authored, &[], 0), 1_000).unwrap(),
        subtitle(&[(0, 2_000, "same")])
    );
}

#[test]
fn wvtt_converts_media_time_in_another_timescale() {
    let authored = subtitle(&[(0, 2_000, "Hello")]);
    assert_eq!(
        unpack(&packed_segment(&authored, &[], 0), 500).unwrap(),
        subtitle(&[(0, 4_000, "Hello")])
    );
}

#[test]
fn wvtt_a_document_survives_the_round_trip_through_a_packed_track() {
    let authored = dyndo::vtt::parse(
        "WEBVTT\n\n00:00.000 --> 00:03.000\nWelcome to dyndo\n\n00:02.000 --> 00:05.000\nOverlapping caption\n\n00:10.000 --> 00:12.500\nAfter a gap\n",
    )
    .unwrap();
    assert_eq!(unpack(&packed_segment(&authored, &[7_400], 4_000), 1_000).unwrap(), authored);
}

#[test]
fn wvtt_rejects_a_truncated_segment() {
    let subtitle = subtitle(&[(0, 2_000, "Hello")]);
    let mut truncated = packed_segment(&subtitle, &[], 0);
    truncated.truncate(truncated.len() - 4);
    assert!(matches!(unpack(&truncated, 1_000), Err(UnpackError::UnpairedFragment)));
}

#[test]
fn mod_unpacks_a_single_cue() {
    let subtitle = subtitle(&[(0, 2_000, "Hello")]);
    assert_eq!(merged(&packed_segment(&subtitle, &[], 0), 1_000), subtitle);
}

#[test]
fn mod_merges_a_cue_the_samples_split() {
    let subtitle = subtitle(&[(0, 6_000, "A"), (1_000, 3_000, "B")]);
    assert_eq!(merged(&packed_segment(&subtitle, &[], 0), 1_000), subtitle);
}

#[test]
fn mod_merges_a_cue_across_the_fragments_of_one_segment() {
    let subtitle = subtitle(&[(0, 6_000, "A")]);
    assert_eq!(merged(&packed_segment(&subtitle, &[], 2_000), 1_000), subtitle);
}

#[test]
fn mod_keeps_cues_sharing_a_start_apart() {
    let subtitle = subtitle(&[(1_000, 2_000, "short"), (1_000, 4_000, "long")]);
    assert_eq!(merged(&packed_segment(&subtitle, &[], 0), 1_000), subtitle);
}

#[test]
fn mod_reads_an_interval_showing_nothing_as_no_cue() {
    let subtitle = subtitle(&[(2_000, 3_000, "A")]);
    assert_eq!(merged(&packed_segment(&subtitle, &[], 0), 1_000), subtitle);
}

#[test]
fn mod_merges_two_cues_carrying_the_same_text_back_to_back() {
    let authored = subtitle(&[(0, 1_000, "same"), (1_000, 2_000, "same")]);
    assert_eq!(merged(&packed_segment(&authored, &[], 0), 1_000), subtitle(&[(0, 2_000, "same")]));
}

#[test]
fn mod_converts_media_time_in_another_timescale() {
    let authored = subtitle(&[(0, 2_000, "Hello")]);
    assert_eq!(merged(&packed_segment(&authored, &[], 0), 500), subtitle(&[(0, 4_000, "Hello")]));
}

#[test]
fn mod_rejects_a_truncated_segment() {
    let subtitle = subtitle(&[(0, 2_000, "Hello")]);
    let mut truncated = packed_segment(&subtitle, &[], 0);
    truncated.truncate(truncated.len() - 4);
    assert!(matches!(unpack_fragments(&truncated, 1_000), Err(UnpackError::UnpairedFragment)));
}
