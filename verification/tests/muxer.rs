use dyndo::demuxer::unpack;
use dyndo::fragmenter::{fragment, Fragment, Sample};
use dyndo::muxer::{encode_fragment, pack, sample_bytes, text_track_header, PackError};
use dyndo::subtitle::{Cue, Subtitle};
use mp4_atom::{Buf, Codec, Decode, FourCC, Ftyp, Mdat, Moof, Moov, Sidx, Styp};

const TIMESCALE: u32 = 1_000;

fn subtitle(cues: &[(u32, u32, &str)]) -> Subtitle {
    Subtitle {
        cues: cues
            .iter()
            .map(|&(start, end, text)| Cue {
                start,
                end,
                text: text.to_string(),
            })
            .collect(),
    }
}

struct PackedFragment {
    start: u64,
    duration: u32,
    size: u32,
    moof_size: usize,
    data_offset: i32,
    samples: Vec<Vec<u8>>,
}

fn moov_of(track: &[u8]) -> Moov {
    let mut buf = track;
    Ftyp::decode(&mut buf).unwrap();
    Moov::decode(&mut buf).unwrap()
}

fn fragments_of(track: &[u8]) -> (Sidx, Vec<PackedFragment>) {
    let mut buf = track;
    Ftyp::decode(&mut buf).unwrap();
    Moov::decode(&mut buf).unwrap();
    let sidx = Sidx::decode(&mut buf).unwrap();

    let mut fragments = Vec::new();
    while buf.remaining() > 0 {
        let size = buf.remaining();
        Styp::decode(&mut buf).unwrap();
        let before_moof = buf.remaining();
        let moof = Moof::decode(&mut buf).unwrap();
        let moof_size = before_moof - buf.remaining();
        let mdat = Mdat::decode(&mut buf).unwrap();
        let traf = &moof.traf[0];
        let trun = &traf.trun[0];
        let mut offset = 0;
        let mut samples = Vec::new();
        let mut duration = 0;
        for entry in trun.samples.iter() {
            let size = entry.size.unwrap() as usize;
            samples.push(mdat.data[offset..offset + size].to_vec());
            offset += size;
            duration += entry.duration.unwrap();
        }
        fragments.push(PackedFragment {
            start: traf.tfdt.as_ref().unwrap().base_media_decode_time,
            duration,
            size: u32::try_from(size - buf.remaining()).unwrap(),
            moof_size,
            data_offset: trun.data_offset.unwrap(),
            samples,
        });
    }
    (sidx, fragments)
}

/// Splits the boxes of a sample: each kind with its body.
fn boxes(mut bytes: &[u8]) -> Vec<(Vec<u8>, Vec<u8>)> {
    let mut out = Vec::new();
    while !bytes.is_empty() {
        let size = u32::from_be_bytes(bytes[0..4].try_into().unwrap()) as usize;
        out.push((bytes[4..8].to_vec(), bytes[8..size].to_vec()));
        bytes = &bytes[size..];
    }
    out
}

fn cue_text(vttc: &(Vec<u8>, Vec<u8>)) -> String {
    assert_eq!(vttc.0, b"vttc");
    let payl = boxes(&vttc.1);
    assert_eq!(payl.len(), 1);
    assert_eq!(payl[0].0, b"payl");
    String::from_utf8(payl[0].1.clone()).unwrap()
}

#[test]
fn wvtt_packs_an_indexable_track() {
    let subtitle = subtitle(&[(0, 1_000, "A")]);
    let track = pack(&fragment(&subtitle, &[], 0)).unwrap();

    let mut buf = track.as_slice();
    let ftyp = Ftyp::decode(&mut buf).unwrap();
    let moov = Moov::decode(&mut buf).unwrap();
    let sidx = Sidx::decode(&mut buf).unwrap();

    assert_eq!(
        (
            ftyp.major_brand,
            moov.trak.len(),
            sidx.timescale,
            sidx.earliest_presentation_time,
            sidx.references.len()
        ),
        (FourCC::new(b"iso6"), 1, TIMESCALE, 0, 1)
    );
}

#[test]
fn wvtt_describes_a_text_track_carrying_webvtt() {
    let subtitle = subtitle(&[(0, 1_000, "A")]);
    let track = pack(&fragment(&subtitle, &[], 0)).unwrap();
    let moov = moov_of(&track);
    let mdia = &moov.trak[0].mdia;

    let Codec::Wvtt(wvtt) = &mdia.minf.stbl.stsd.codecs[0] else {
        panic!("expected a wvtt sample entry");
    };
    assert_eq!(
        (
            mdia.hdlr.handler,
            mdia.mdhd.timescale,
            mdia.mdhd.language.as_str(),
            wvtt.config.config.as_str()
        ),
        (FourCC::new(b"text"), TIMESCALE, "und", "WEBVTT\n")
    );
}

#[test]
fn wvtt_declares_the_track_duration_from_the_last_cue() {
    let subtitle = subtitle(&[(0, 1_000, "A"), (4_000, 6_500, "B")]);
    let track = pack(&fragment(&subtitle, &[], 0)).unwrap();
    let moov = moov_of(&track);

    assert_eq!(
        (moov.mvhd.duration, moov.trak[0].mdia.mdhd.duration),
        (6_500, 6_500)
    );
}

#[test]
fn wvtt_every_reference_matches_its_fragment() {
    let subtitle = subtitle(&[(0, 1_000, "A"), (2_000, 3_000, "B")]);
    let track = pack(&fragment(&subtitle, &[], 1_000)).unwrap();
    let (sidx, fragments) = fragments_of(&track);

    assert_eq!(
        sidx.references
            .iter()
            .map(|reference| (reference.referenced_size, reference.subsegment_duration))
            .collect::<Vec<_>>(),
        fragments
            .iter()
            .map(|fragment| (fragment.size, fragment.duration))
            .collect::<Vec<_>>()
    );
}

#[test]
fn wvtt_references_are_random_access_media() {
    let subtitle = subtitle(&[(0, 1_000, "A")]);
    let track = pack(&fragment(&subtitle, &[], 0)).unwrap();
    let (sidx, _) = fragments_of(&track);

    let reference = &sidx.references[0];
    assert_eq!(
        (
            reference.reference_type,
            reference.starts_with_sap,
            reference.sap_type
        ),
        (false, true, 1)
    );
}

#[test]
fn wvtt_a_gap_becomes_an_empty_cue_sample() {
    let subtitle = subtitle(&[(0, 1_000, "A"), (2_000, 3_000, "B")]);
    let track = pack(&fragment(&subtitle, &[], 0)).unwrap();
    let (_, fragments) = fragments_of(&track);

    let gap = &fragments[0].samples[1];
    assert_eq!(gap.as_slice(), &[0, 0, 0, 8, b'v', b't', b't', b'e']);
}

#[test]
fn wvtt_a_cue_sample_carries_its_text() {
    let subtitle = subtitle(&[(0, 1_000, "Hello")]);
    let track = pack(&fragment(&subtitle, &[], 0)).unwrap();
    let (_, fragments) = fragments_of(&track);

    let sample = boxes(&fragments[0].samples[0]);
    assert_eq!(sample.len(), 1);
    assert_eq!(cue_text(&sample[0]), "Hello");
}

#[test]
fn wvtt_simultaneous_cues_share_one_sample() {
    let subtitle = subtitle(&[(0, 2_000, "A"), (1_000, 3_000, "B")]);
    let track = pack(&fragment(&subtitle, &[], 0)).unwrap();
    let (_, fragments) = fragments_of(&track);

    // [0,1000)=A, [1000,2000)=A+B, [2000,3000)=B
    let overlap = boxes(&fragments[0].samples[1]);
    assert_eq!(
        [cue_text(&overlap[0]), cue_text(&overlap[1])],
        ["A".to_string(), "B".to_string()]
    );
}

#[test]
fn wvtt_each_fragment_declares_its_own_start_and_duration() {
    let subtitle = subtitle(&[(0, 10_000, "A")]);
    let track = pack(&fragment(&subtitle, &[7_400], 4_000)).unwrap();
    let (_, fragments) = fragments_of(&track);

    assert_eq!(
        fragments
            .iter()
            .map(|fragment| (fragment.start, fragment.duration))
            .collect::<Vec<_>>(),
        [(0, 4_000), (4_000, 3_400), (7_400, 600), (8_000, 2_000)]
    );
}

#[test]
fn wvtt_samples_follow_the_mdat_header() {
    let subtitle = subtitle(&[(0, 1_000, "A")]);
    let track = pack(&fragment(&subtitle, &[], 0)).unwrap();
    let (_, fragments) = fragments_of(&track);

    assert_eq!(
        fragments[0].data_offset,
        i32::try_from(fragments[0].moof_size + 8).unwrap()
    );
}

#[test]
fn wvtt_a_subtitle_without_cues_is_rejected() {
    let subtitle = subtitle(&[]);
    let error = pack(&fragment(&subtitle, &[], 0)).unwrap_err();

    assert!(matches!(error, PackError::Empty));
}

#[test]
fn wvtt_a_subtitle_ending_at_time_zero_is_rejected() {
    let subtitle = subtitle(&[(0, 0, "A")]);
    let error = pack(&fragment(&subtitle, &[], 0)).unwrap_err();

    assert!(matches!(error, PackError::Empty));
}

#[test]
fn packing_then_unpacking_returns_the_cues() {
    let authored = subtitle(&[(0, 1_500, "one"), (1_000, 2_500, "two"), (4_000, 6_000, "three")]);
    let track = pack(&fragment(&authored, &[2_000], 1_000)).unwrap();
    let mut buf = track.as_slice();
    Ftyp::decode(&mut buf).unwrap();
    Moov::decode(&mut buf).unwrap();
    Sidx::decode(&mut buf).unwrap();
    assert_eq!(unpack(buf, 1_000).unwrap(), authored);
}

#[test]
fn sample_bytes_writes_one_vttc_per_cue() {
    let sample = Sample {
        start: 0,
        end: 10,
        cues: vec![
            Cue { start: 0, end: 10, text: "é".to_string() },
            Cue { start: 0, end: 20, text: String::new() },
        ],
    };
    let bytes = sample_bytes(&sample).unwrap();
    assert_eq!(
        bytes,
        [
            &[0, 0, 0, 18][..], b"vttc", &[0, 0, 0, 10], b"payl", "é".as_bytes(),
            &[0, 0, 0, 16], b"vttc", &[0, 0, 0, 8], b"payl",
        ]
        .concat()
    );
}

#[test]
fn encode_fragment_numbers_fragments_from_one() {
    let fragment = Fragment {
        start: 5,
        end: 6,
        samples: vec![Sample { start: 5, end: 6, cues: vec![] }],
    };
    let bytes = encode_fragment(41, &fragment).unwrap();
    let mut buf = bytes.as_slice();
    Styp::decode(&mut buf).unwrap();
    let moof = Moof::decode(&mut buf).unwrap();
    assert_eq!(moof.mfhd.sequence_number, 42);
    assert_eq!(moof.traf[0].tfdt.as_ref().unwrap().base_media_decode_time, 5);
}

#[test]
fn text_track_header_declares_a_single_text_track() {
    let header = text_track_header(6_500);
    assert_eq!(
        (
            header.timescale,
            header.duration,
            header.track_id,
            header.next_track_id,
            header.language.as_str(),
            &header.handler,
            header.name.as_str(),
            header.config.as_str()
        ),
        (1_000, 6_500, 1, 2, "und", b"text", "dyndo", "WEBVTT\n")
    );
}
