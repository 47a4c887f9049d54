use dyndo::cmaf::{fits_until_time, segment_range, ByteRange, CmafHeader, Segment, Stream, VideoCodec, VideoStream};

fn header(ept: u64, segs: Vec<Segment>) -> CmafHeader {
    CmafHeader {
        timescale: 90000,
        duration: segs.iter().map(|s| s.duration).sum(),
        bandwidth: 1000,
        earliest_presentation_time: ept,
        init_range: ByteRange { start: 0, end: 100 },
        segments: segs,
        stream: Stream::Video(VideoStream {
            codec: VideoCodec::Avc {
                profile: 0x64,
                constraints: 0,
                level: 0x28,
            },
            width: 1920,
            height: 1080,
            frame_rate: (25, 1),
        }),
    }
}

fn seg(offset: u64, size: u64, duration: u64) -> Segment {
    Segment {
        offset,
        size,
        duration,
    }
}

#[test]
fn resolves_boundaries_and_rejects_misses() {
    let h = header(
        0,
        vec![seg(1000, 500, 90000), seg(1500, 700, 90000), seg(2200, 300, 45000)],
    );
    // First segment at t == ept.
    assert_eq!(segment_range(&h, 0), Some(ByteRange { start: 1000, end: 1500 }));
    // Second at ept + 90000.
    assert_eq!(segment_range(&h, 90000), Some(ByteRange { start: 1500, end: 2200 }));
    // Third at ept + 180000.
    assert_eq!(segment_range(&h, 180000), Some(ByteRange { start: 2200, end: 2500 }));
    // A time between boundaries matches nothing.
    assert_eq!(segment_range(&h, 45000), None);
    assert_eq!(segment_range(&h, 999999), None);
}

#[test]
fn honours_nonzero_earliest_presentation_time() {
    let h = header(5000, vec![seg(10, 20, 90000)]);
    assert_eq!(segment_range(&h, 5000), Some(ByteRange { start: 10, end: 30 }));
    assert_eq!(segment_range(&h, 0), None);
}

#[test]
fn a_zero_length_segment_shares_its_start_with_the_next_and_is_found_first() {
    let h = header(0, vec![seg(0, 10, 0), seg(10, 20, 500)]);
    assert_eq!(segment_range(&h, 0), Some(ByteRange { start: 0, end: 10 }));
    assert_eq!(segment_range(&h, 500), None);
}

#[test]
fn fits_until_time_tells_when_a_lookup_stays_in_u64() {
    let seg = |offset: u64, size: u64, duration: u64| Segment { offset, size, duration };
    let fine = header(10, vec![seg(0, 5, 100), seg(5, 5, 100)]);
    assert!(fits_until_time(&fine, 110));
    assert!(fits_until_time(&fine, 7));
    let long = header(u64::MAX - 50, vec![seg(0, 5, 100), seg(5, 5, 100)]);
    assert!(!fits_until_time(&long, 3));
    assert!(fits_until_time(&long, u64::MAX - 50));
    let wide = header(0, vec![seg(u64::MAX - 2, 5, 100)]);
    assert!(!fits_until_time(&wide, 0));
}
