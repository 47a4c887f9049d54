use dyndo::packaging::{MediaSegment, Sample, SegmentType};
use mp4_atom::{Decode, Mdat, Moof, Styp};

#[test]
fn a_media_segment_lasts_as_long_as_its_samples() {
    let segment = MediaSegment::new(
        9_000,
        vec![Sample::new(1_000, "a"), Sample::new(2_500, "b"), Sample::new(0, "c")],
    );

    assert_eq!(
        (segment.base_decode_time(), segment.duration(), segment.samples().len()),
        (9_000, 3_500, 3)
    );
}

#[test]
fn a_sample_keeps_its_duration_and_payload() {
    let sample = Sample::new(u32::MAX, vec![1u8, 2, 3]);

    assert_eq!((sample.duration(), sample.payload().clone()), (u32::MAX, vec![1, 2, 3]));
}

#[test]
fn an_empty_media_segment_lasts_nothing() {
    let segment: MediaSegment<()> = MediaSegment::new(0, Vec::new());

    assert_eq!(segment.duration(), 0);
}

#[test]
fn durations_add_up_past_what_a_sample_counts() {
    let segment = MediaSegment::new(0, vec![Sample::new(u32::MAX, ()), Sample::new(u32::MAX, ())]);

    assert_eq!(segment.duration(), 2 * u64::from(u32::MAX));
}

#[test]
fn serialize_writes_styp_moof_and_mdat() {
    let segment = MediaSegment::new(
        90_000,
        vec![Sample::new(1_000, 'a'), Sample::new(2_000, 'b')],
    );
    let segment_type = SegmentType {
        major_brand: *b"msdh",
        minor_version: 0,
        compatible_brands: vec![*b"msdh", *b"msix"],
    };
    let payloads = vec![vec![1u8, 2, 3], vec![4u8]];
    let bytes = segment.serialize(&segment_type, &payloads, 7, 3).unwrap();

    let mut buf = bytes.as_slice();
    let styp = Styp::decode(&mut buf).unwrap();
    let before = buf.len();
    let moof = Moof::decode(&mut buf).unwrap();
    let moof_size = before - buf.len();
    let mdat = Mdat::decode(&mut buf).unwrap();
    assert_eq!(styp.compatible_brands.len(), 2);
    assert_eq!(moof.mfhd.sequence_number, 3);
    let traf = &moof.traf[0];
    assert_eq!((traf.tfhd.track_id, traf.tfdt.as_ref().unwrap().base_media_decode_time), (7, 90_000));
    let trun = &traf.trun[0];
    assert_eq!(trun.data_offset, Some(i32::try_from(moof_size + 8).unwrap()));
    let entries: Vec<_> = trun.samples.iter().map(|e| (e.duration, e.size)).collect();
    assert_eq!(entries, [(Some(1_000), Some(3)), (Some(2_000), Some(1))]);
    assert_eq!(mdat.data, [1, 2, 3, 4]);
}
