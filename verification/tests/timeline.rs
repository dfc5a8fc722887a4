use rapier_bevy::plugins::play::{match_frame, FrameMismatch, PlayState};
use rapier_bevy::plugins::write_timeline::TimelineWriter;
use rapier_bevy::timeline::{body_key, Timeline, TimelineKey, TIMELINE_FPS};

type Pose = [f32; 3];

fn pose(x: f32) -> Pose {
    [x, x + 1.0, x + 2.0]
}

#[test]
fn writer_sorts_rows_by_key() {
    let mut w: TimelineWriter<Pose> = TimelineWriter::new(1);
    assert_eq!(w.capture_frame(vec![(30, pose(3.0)), (10, pose(1.0)), (20, pose(2.0))]), Ok(()));
    let t = w.finish();
    assert_eq!(t.fps, TIMELINE_FPS);
    assert_eq!(t.frames, vec![vec![(10, pose(1.0)), (20, pose(2.0)), (30, pose(3.0))]]);
}

#[test]
fn writer_refuses_duplicate_keys() {
    let mut w: TimelineWriter<Pose> = TimelineWriter::new(1);
    assert_eq!(w.capture_frame(vec![(5, pose(0.0)), (3, pose(1.0)), (5, pose(2.0)), (3, pose(3.0))]), Err(3));
    assert_eq!(w.frames_captured(), 0);
}

#[test]
fn writer_stops_at_total_frames() {
    let mut w: TimelineWriter<u8> = TimelineWriter::new(1);
    for f in 0..60u8 {
        assert!(!w.is_complete());
        assert_eq!(w.capture_frame(vec![(1, f)]), Ok(()));
    }
    assert!(w.is_complete());
    assert_eq!(w.capture_frame(vec![(1, 99), (1, 98)]), Ok(()));
    assert_eq!(w.frames_captured(), 60);
    let t = w.finish();
    assert_eq!(t.frames.len(), 60);
    assert_eq!(t.frames[59], vec![(1, 59)]);
    assert_eq!(t.duration_secs(), 1);
}

#[test]
fn writer_ties_events_to_last_frame() {
    let mut w: TimelineWriter<u8> = TimelineWriter::new(2);
    let mut pending = vec!["early".to_string()];
    w.drain_frame_events(&mut pending);
    assert!(pending.is_empty());
    w.capture_frame(vec![(1, 0)]).unwrap();
    w.capture_frame(vec![(1, 1)]).unwrap();
    let mut pending = vec!["hit a".to_string(), "hit b".to_string()];
    w.drain_frame_events(&mut pending);
    assert!(pending.is_empty());
    w.capture_frame(vec![(1, 2)]).unwrap();
    let mut pending = vec!["despawn".to_string()];
    w.drain_frame_events(&mut pending);
    let mut none: Vec<String> = Vec::new();
    w.drain_frame_events(&mut none);
    let t = w.finish();
    assert_eq!(
        t.events,
        vec![(1, "hit a".to_string()), (1, "hit b".to_string()), (2, "despawn".to_string())]
    );
}

#[test]
fn timeline_summary() {
    let t: Timeline<u8> = Timeline { fps: 60, frames: vec![vec![(1, 0), (2, 0)]; 150], events: vec![] };
    assert_eq!(t.frame_count(), 150);
    assert_eq!(t.duration_secs(), 2);
    assert_eq!(t.body_count(), 2);
    let z: Timeline<u8> = Timeline { fps: 0, frames: vec![], events: vec![] };
    assert_eq!(z.duration_secs(), 0);
    assert_eq!(z.body_count(), 0);
    let odd: Timeline<u8> = Timeline { fps: 0, frames: vec![vec![]; 7], events: vec![] };
    assert_eq!(odd.duration_secs(), 7);
}

#[test]
fn body_key_prefers_timeline_key() {
    assert_eq!(body_key(Some(TimelineKey(77)), 3), 77);
    assert_eq!(body_key(None, 3), 3);
}

#[test]
fn match_frame_pairs_by_key() {
    let frame = vec![(1u64, 'a'), (5, 'b'), (9, 'c')];
    let world = vec![9u64, 1, 5];
    assert_eq!(match_frame(&world, &frame), Ok(vec![(1, 'a'), (2, 'b'), (0, 'c')]));
}

#[test]
fn match_frame_errors() {
    let frame = vec![(1u64, 'a'), (5, 'b')];
    assert_eq!(
        match_frame(&vec![1u64], &frame),
        Err(FrameMismatch::BodyCount { world: 1, timeline: 2 })
    );
    assert_eq!(
        match_frame(&vec![5u64, 4], &frame),
        Err(FrameMismatch::Key { world: 4, timeline: 1 })
    );
}

#[test]
fn play_reproduces_captured_poses() {
    let mut w: TimelineWriter<Pose> = TimelineWriter::new(1);
    w.capture_frame(vec![(42, pose(4.0)), (7, pose(0.5)), (13, pose(9.0))]).unwrap();
    let t = w.finish();
    let mut p = PlayState::new(t);
    // The playing world lists its bodies in another order.
    let world = vec![13u64, 42, 7];
    let played = p.play_frame(&world).unwrap();
    let poses = played.poses.unwrap();
    assert_eq!(poses.len(), 3);
    for (row, pz) in poses {
        let expected = match world[row] {
            42 => pose(4.0),
            7 => pose(0.5),
            13 => pose(9.0),
            _ => unreachable!(),
        };
        assert_eq!(pz, expected);
    }
}

#[test]
fn play_sends_events_of_each_frame() {
    let t: Timeline<u8> = Timeline {
        fps: 60,
        frames: vec![vec![(1, 0)], vec![(1, 1)], vec![(1, 2)]],
        events: vec![(0, "a".to_string()), (2, "b".to_string()), (2, "c".to_string())],
    };
    let mut p = PlayState::new(t);
    let f0 = p.play_frame(&vec![1]).unwrap();
    assert_eq!(f0.frame, 0);
    assert_eq!(f0.events, vec!["a".to_string()]);
    assert_eq!(f0.poses, Ok(vec![(0, 0)]));
    let f1 = p.play_frame(&vec![1]).unwrap();
    assert_eq!(f1.frame, 1);
    assert!(f1.events.is_empty());
    let f2 = p.play_frame(&vec![1]).unwrap();
    assert_eq!(f2.events, vec!["b".to_string(), "c".to_string()]);
    assert_eq!(f2.poses, Ok(vec![(0, 2)]));
    assert!(p.play_frame(&vec![1]).is_none());
    assert!(p.play_frame(&vec![1]).is_none());
}

#[test]
fn play_reports_world_mismatch() {
    let t: Timeline<u8> = Timeline { fps: 60, frames: vec![vec![(1, 0), (2, 0)]], events: vec![] };
    let mut p = PlayState::new(t);
    let f = p.play_frame(&vec![1, 3]).unwrap();
    assert_eq!(f.poses, Err(FrameMismatch::Key { world: 3, timeline: 2 }));
}

#[test]
fn play_run_sends_every_event_once_in_its_frame() {
    let events = vec![
        (0u32, "a".to_string()),
        (0, "b".to_string()),
        (1, "c".to_string()),
        (3, "d".to_string()),
    ];
    let t: Timeline<u8> = Timeline {
        fps: 60,
        frames: vec![vec![(1, 0)], vec![(1, 1)], vec![(1, 2)], vec![(1, 3)]],
        events: events.clone(),
    };
    let mut p = PlayState::new(t);
    let mut sent: Vec<(u32, String)> = Vec::new();
    while let Some(played) = p.play_frame(&vec![1]) {
        for e in played.events {
            sent.push((played.frame as u32, e));
        }
    }
    assert_eq!(sent, events);
    assert!(p.play_frame(&vec![1]).is_none());
}
