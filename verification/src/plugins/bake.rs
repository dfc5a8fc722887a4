//! The baked simulation of the first pipeline: poses only, bodies in the
//! order of their entities, and its replay.

use vstd::prelude::*;
use crate::key_order::{
    all_distinct, is_stable_order, key_before, row_keys, sort_rows_by_key, sorted_rows, stable_order,
    stable_order_by_key,
};
use crate::plugins::play::assigned_rows;
use crate::timeline::TIMELINE_FPS;

verus! {

/// A baked simulation: `frames[f][b]` is the pose of body `b` in frame `f`,
/// bodies in ascending entity order.
pub struct Timeline<P> {
    pub fps: u32,
    pub frames: Vec<Vec<P>>,
}

/// The poses of rows in stable ascending order of their entity.
pub open spec fn poses_by_entity<P>(rows: Seq<(u64, P)>) -> Seq<P> {
    sorted_rows(rows).map_values(|r: (u64, P)| r.1)
}

/// A bake in progress.
pub struct BakeRecorder<P> {
    total_frames: u32,
    frames: Vec<Vec<P>>,
}

pub struct BakeRecorderView<P> {
    pub total_frames: u32,
    pub frames: Seq<Seq<P>>,
}

impl<P> View for BakeRecorder<P> {
    type V = BakeRecorderView<P>;

    closed spec fn view(&self) -> BakeRecorderView<P> {
        BakeRecorderView {
            total_frames: self.total_frames,
            frames: self.frames@.map_values(|f: Vec<P>| f@),
        }
    }
}

impl<P> BakeRecorderView<P> {
    pub open spec fn inv(self) -> bool {
        self.frames.len() <= self.total_frames
    }

    pub open spec fn is_complete(self) -> bool {
        self.frames.len() >= self.total_frames
    }
}

impl<P: Copy> BakeRecorder<P> {
    pub fn new(duration_secs: u32) -> (r: Self)
        requires
            TIMELINE_FPS * duration_secs <= u32::MAX,
        ensures
            r@.total_frames == TIMELINE_FPS * duration_secs,
            r@.frames.len() == 0,
            r@.inv(),
    {
        BakeRecorder { total_frames: TIMELINE_FPS * duration_secs, frames: Vec::new() }
    }

    pub fn is_complete(&self) -> (r: bool)
        ensures
            r == self@.is_complete(),
    {
        self.frames.len() as u64 >= self.total_frames as u64
    }

    /// Captures one frame from the rows `(entity, pose)` of every body;
    /// nothing happens once the bake is complete.
    pub fn capture_frame(&mut self, rows: Vec<(u64, P)>)
        requires
            old(self)@.inv(),
        ensures
            final(self)@.inv(),
            final(self)@.total_frames == old(self)@.total_frames,
            old(self)@.is_complete() ==> final(self)@ == old(self)@,
            !old(self)@.is_complete() ==> final(self)@.frames == old(self)@.frames.push(
                poses_by_entity(rows@),
            ),
    {
        if self.is_complete() {
            return;
        }
        let sorted = sort_rows_by_key(&rows);
        let mut poses: Vec<P> = Vec::new();
        let mut i: usize = 0;
        while i < sorted.len()
            invariant
                i <= sorted.len(),
                poses@ =~= sorted@.subrange(0, i as int).map_values(|r: (u64, P)| r.1),
            decreases sorted.len() - i,
        {
            poses.push(sorted[i].1);
            i += 1;
        }
        assert(sorted@.subrange(0, sorted@.len() as int) =~= sorted@);
        let ghost old_frames = self.frames@;
        self.frames.push(poses);
        assert(self.frames@.map_values(|f: Vec<P>| f@) =~= old_frames.map_values(|f: Vec<P>| f@).push(
            poses_by_entity(rows@),
        ));
    }

    /// The baked timeline.
    pub fn finish(self) -> (r: Timeline<P>)
        ensures
            r.fps == TIMELINE_FPS,
            r.frames@.map_values(|f: Vec<P>| f@) == self@.frames,
    {
        Timeline { fps: TIMELINE_FPS, frames: self.frames }
    }
}

/// The world does not have as many bodies as the baked frame.
#[derive(Clone, Copy, Debug, PartialEq, Eq, Structural)]
pub struct BodyCountMismatch {
    pub world: usize,
    pub timeline: usize,
}

/// The pose of each world row: the world's rows in stable ascending entity
/// order take the frame's poses one by one.
pub open spec fn replay_spec<P>(world_keys: Seq<u64>, frame: Seq<P>) -> Result<
    Seq<(usize, P)>,
    BodyCountMismatch,
> {
    if world_keys.len() != frame.len() {
        Err(BodyCountMismatch { world: world_keys.len() as usize, timeline: frame.len() as usize })
    } else {
        Ok(Seq::new(frame.len(), |i: int| (stable_order(world_keys)[i], frame[i])))
    }
}

/// Replay in progress.
pub struct ReplayState<P> {
    timeline: Timeline<P>,
    cursor: usize,
}

pub struct ReplayStateView<P> {
    pub fps: u32,
    pub frames: Seq<Seq<P>>,
    pub cursor: nat,
}

impl<P> View for ReplayState<P> {
    type V = ReplayStateView<P>;

    closed spec fn view(&self) -> ReplayStateView<P> {
        ReplayStateView {
            fps: self.timeline.fps,
            frames: self.timeline.frames@.map_values(|f: Vec<P>| f@),
            cursor: self.cursor as nat,
        }
    }
}

impl<P: Copy> ReplayState<P> {
    pub fn new(timeline: Timeline<P>) -> (r: Self)
        ensures
            r@.fps == timeline.fps,
            r@.frames == timeline.frames@.map_values(|f: Vec<P>| f@),
            r@.cursor == 0,
    {
        ReplayState { timeline, cursor: 0 }
    }

    /// Plays the next baked frame on the world whose bodies carry the entity
    /// keys `world_keys`; once the bake is spent the world stays frozen.
    pub fn replay_frame(&mut self, world_keys: &Vec<u64>) -> (r: Option<
        Result<Vec<(usize, P)>, BodyCountMismatch>,
    >)
        requires
            old(self)@.cursor <= old(self)@.frames.len(),
        ensures
            final(self)@.fps == old(self)@.fps,
            final(self)@.frames == old(self)@.frames,
            final(self)@.cursor <= final(self)@.frames.len(),
            old(self)@.cursor >= old(self)@.frames.len() ==> r is None && final(self)@ == old(self)@,
            old(self)@.cursor < old(self)@.frames.len() ==> final(self)@.cursor == old(self)@.cursor + 1
                && (r matches Some(res) && match (res, replay_spec(
                world_keys@,
                old(self)@.frames[old(self)@.cursor as int],
            )) {
                (Ok(v), Ok(s)) => v@ == s,
                (Err(e), Err(f)) => e == f,
                _ => false,
            }),
    {
        let cursor = self.cursor;
        if cursor >= self.timeline.frames.len() {
            return None;
        }
        self.cursor = cursor + 1;
        let frame = &self.timeline.frames[cursor];
        assert(frame@ == old(self)@.frames[cursor as int]);
        if world_keys.len() != frame.len() {
            return Some(Err(BodyCountMismatch { world: world_keys.len(), timeline: frame.len() }));
        }
        let order = stable_order_by_key(world_keys);
        let mut out: Vec<(usize, P)> = Vec::new();
        let mut i: usize = 0;
        while i < frame.len()
            invariant
                i <= frame.len(),
                frame.len() == world_keys.len(),
                order@ == stable_order(world_keys@),
                is_stable_order(world_keys@, order@),
                out@ =~= Seq::new(i as nat, |q: int| (order@[q], frame@[q])),
            decreases frame.len() - i,
        {
            out.push((order[i], frame[i]));
            i += 1;
        }
        Some(Ok(out))
    }
}


/// What replay gives back of what the bake took: when the replaying world
/// spawned the same bodies (the same entities, each once, listed in any
/// order), the frame fits, and every body of the world receives, exactly
/// once, the pose baked for its own entity.
pub proof fn law_replay_reproduces_bake<P>(baked: Seq<(u64, P)>, world_keys: Seq<u64>)
    requires
        baked.len() <= usize::MAX,
        all_distinct(row_keys(baked)),
        world_keys.no_duplicates(),
        world_keys.to_set() == row_keys(baked).to_set(),
    ensures
        replay_spec(world_keys, poses_by_entity(baked)) matches Ok(poses) && {
            &&& poses.len() == world_keys.len()
            &&& forall|i: int|
                0 <= i < poses.len() ==> row_keys(baked).contains(
                    world_keys[(#[trigger] poses[i]).0 as int],
                )
            &&& forall|i: int, k: int|
                0 <= i < poses.len() && 0 <= k < baked.len() && (#[trigger] baked[k]).0
                    == world_keys[(#[trigger] poses[i]).0 as int] ==> baked[k].1 == poses[i].1
            &&& forall|w: usize|
                (w as int) < world_keys.len() ==> #[trigger] assigned_rows(poses).contains(w)
            &&& forall|i: int, j: int|
                0 <= i < j < poses.len() ==> (#[trigger] poses[i]).0 != (#[trigger] poses[j]).0
        },
{
    let bk = row_keys(baked);
    let frame = poses_by_entity(baked);
    crate::key_order::lemma_sorted_distinct_ascending(baked);
    assert(bk.no_duplicates());
    crate::key_order::lemma_same_keys_same_order(world_keys, bk);
    let o = stable_order(world_keys);
    let bo = stable_order(bk);
    let poses = Seq::new(frame.len(), |i: int| (o[i], frame[i]));
    assert(replay_spec(world_keys, frame) == Ok::<Seq<(usize, P)>, BodyCountMismatch>(poses));
    assert forall|w: usize| (w as int) < world_keys.len() implies #[trigger] assigned_rows(poses).contains(w) by {
        let wi: int = w as int;
        assert(o.contains(wi as usize));
        let i = choose|i: int| 0 <= i < o.len() && o[i] == w;
        assert(assigned_rows(poses)[i] == w);
    }
    assert forall|i: int, j: int| 0 <= i < j < poses.len() implies (#[trigger] poses[i]).0 != (
    #[trigger] poses[j]).0 by {
        assert(key_before(world_keys, o[i] as int, o[j] as int));
    }
    assert forall|i: int, k: int|
        0 <= i < poses.len() && 0 <= k < baked.len() && (#[trigger] baked[k]).0
            == world_keys[(#[trigger] poses[i]).0 as int] implies baked[k].1 == poses[i].1 by {
        assert(world_keys[o[i] as int] == bk[bo[i] as int]);
        assert(frame[i] == baked[bo[i] as int].1);
        assert(bk[k] == bk[bo[i] as int]);
        if k != bo[i] as int {
            if k < bo[i] as int {
                assert(bk[k] != bk[bo[i] as int]);
            } else {
                assert(bk[bo[i] as int] != bk[k]);
            }
        }
    }
    assert forall|i: int| 0 <= i < poses.len() implies row_keys(baked).contains(
        world_keys[(#[trigger] poses[i]).0 as int],
    ) by {
        let so = stable_order(bk);
        assert(bk[so[i] as int] == world_keys[poses[i].0 as int]);
    }
}

} // verus!
