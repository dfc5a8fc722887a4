use rapier_bevy::plugins::bake::{BakeRecorder, BodyCountMismatch, ReplayState};

#[test]
fn bake_orders_poses_by_entity() {
    let mut b: BakeRecorder<char> = BakeRecorder::new(1);
    b.capture_frame(vec![(300, 'c'), (100, 'a'), (200, 'b')]);
    let t = b.finish();
    assert_eq!(t.fps, 60);
    assert_eq!(t.frames, vec![vec!['a', 'b', 'c']]);
}

#[test]
fn bake_stops_when_complete() {
    let mut b: BakeRecorder<u8> = BakeRecorder::new(1);
    for i in 0..61u8 {
        b.capture_frame(vec![(1, i)]);
    }
    assert!(b.is_complete());
    assert_eq!(b.finish().frames.len(), 60);
}

#[test]
fn replay_gives_poses_in_entity_order() {
    let mut b: BakeRecorder<char> = BakeRecorder::new(1);
    b.capture_frame(vec![(2, 'y'), (1, 'x')]);
    let mut r = ReplayState::new(b.finish());
    // World rows: row 0 is entity 2, row 1 is entity 1.
    assert_eq!(r.replay_frame(&vec![2, 1]), Some(Ok(vec![(1, 'x'), (0, 'y')])));
    assert_eq!(r.replay_frame(&vec![2, 1]), None);
}

#[test]
fn replay_counts_bodies() {
    let mut b: BakeRecorder<char> = BakeRecorder::new(1);
    b.capture_frame(vec![(2, 'y'), (1, 'x')]);
    let mut r = ReplayState::new(b.finish());
    assert_eq!(r.replay_frame(&vec![2]), Some(Err(BodyCountMismatch { world: 1, timeline: 2 })));
}
