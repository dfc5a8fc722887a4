use rapier_bevy::plugins::benchmark::{bench_phase, BenchPhase};
use rapier_bevy::plugins::record::{
    decimal_string, encoder_args, padded_row_bytes, strip_row_padding, FrameDecision, Progress, RecordState, VIDEO_WIDTH,
};

#[test]
fn padded_rows_align_to_256() {
    assert_eq!(padded_row_bytes(VIDEO_WIDTH as usize * 4), 4352);
    assert_eq!(padded_row_bytes(256), 256);
    assert_eq!(padded_row_bytes(0), 0);
    assert_eq!(padded_row_bytes(1), 256);
    assert_eq!(padded_row_bytes(257), 512);
}

#[test]
fn strip_padding_drops_row_tails() {
    let raw: Vec<u8> = (0..10).collect();
    assert_eq!(strip_row_padding(&raw, 3, 4), vec![0, 1, 2, 4, 5, 6, 8, 9]);
    assert_eq!(strip_row_padding(&raw, 4, 4), raw);
    assert_eq!(strip_row_padding(&raw, 0, 0), raw);
    assert_eq!(strip_row_padding(&Vec::new(), 2, 4), Vec::<u8>::new());
}

#[test]
fn strip_padding_matches_chunk_walk() {
    let raw: Vec<u8> = (0..=255u8).cycle().take(1000).collect();
    let mut expected = Vec::new();
    for row in raw.chunks(48) {
        expected.extend_from_slice(&row[..40.min(row.len())]);
    }
    assert_eq!(strip_row_padding(&raw, 40, 48), expected);
}

#[test]
fn record_skips_warmup_then_pipes() {
    let mut s = RecordState::new(2);
    assert_eq!(s.total_frames(), 120);
    assert_eq!(s.on_frame(true), FrameDecision::Discard);
    s.mark_capture(false);
    assert_eq!(s.on_frame(true), FrameDecision::Discard);
    for _ in 0..3 {
        s.mark_capture(true);
        assert_eq!(s.on_frame(false), FrameDecision::Wait);
        assert_eq!(s.on_frame(true), FrameDecision::SkipWarmup);
    }
    for i in 1..=120u32 {
        s.mark_capture(true);
        let d = s.on_frame(true);
        if i % 60 == 0 {
            assert_eq!(
                d,
                FrameDecision::Pipe { progress: Some(Progress { captured: i, total: 120, percent: i * 100 / 120 }) }
            );
        } else {
            assert_eq!(d, FrameDecision::Pipe { progress: None });
        }
    }
    assert_eq!(s.frames_captured(), 120);
    s.mark_capture(true);
    assert_eq!(s.on_frame(true), FrameDecision::Discard);
    assert!(s.wants_frames());
    assert!(s.check_complete());
    assert!(!s.wants_frames());
    assert!(!s.check_complete());
}

#[test]
fn record_not_complete_early() {
    let mut s = RecordState::new(1);
    assert!(!s.check_complete());
    let mut z = RecordState::new(0);
    assert!(z.check_complete());
}

#[test]
fn bench_phases() {
    assert_eq!(bench_phase(1), BenchPhase::Warmup);
    assert_eq!(bench_phase(120), BenchPhase::Warmup);
    assert_eq!(bench_phase(121), BenchPhase::Sample);
    assert_eq!(bench_phase(719), BenchPhase::Sample);
    assert_eq!(bench_phase(720), BenchPhase::Report);
    assert_eq!(bench_phase(u32::MAX), BenchPhase::Report);
}

#[test]
fn decimal_strings_match_std() {
    for n in [0u32, 7, 9, 10, 60, 101, 1080, 1920, 4294967295] {
        assert_eq!(decimal_string(n), n.to_string());
    }
}

fn strings(list: &[&str]) -> Vec<String> {
    list.iter().map(|s| s.to_string()).collect()
}

#[test]
fn encoder_args_by_default() {
    assert_eq!(
        encoder_args(60, None, None),
        strings(&[
            "-y", "-f", "rawvideo", "-pix_fmt", "rgba", "-s:v", "1080x1920", "-framerate", "60",
            "-i", "pipe:0", "-c:v", "libx264", "-preset", "veryfast", "-threads", "6", "-crf",
            "20", "-pix_fmt", "yuv420p", "outputs/record_60s.mp4",
        ])
    );
}

#[test]
fn encoder_args_with_tuning() {
    // docs: RECORD_PRESET=ultrafast, RECORD_X264_THREADS=10, --record 30
    let args = encoder_args(30, Some("ultrafast".to_string()), Some(10));
    assert_eq!(args[14], "ultrafast");
    assert_eq!(args[16], "10");
    assert_eq!(args[21], "outputs/record_30s.mp4");
    assert_eq!(args.len(), 22);
}
