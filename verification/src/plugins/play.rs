//! Playback of a timeline: no physics, the score dictates every pose. Each
//! fixed step plays one frame: the game's events of that frame are sent
//! again, and every body of the world takes the pose recorded for its key.

use vstd::prelude::*;
use crate::key_order::{
    is_stable_order, row_keys, stable_order, stable_order_by_key, sorted_rows, all_distinct,
    key_before,
};
use crate::timeline::{Timeline, TimelineView};

verus! {

/// Why a frame of the timeline cannot be laid on the world: the two worlds
/// did not spawn the same bodies.
#[derive(Clone, Copy, Debug, PartialEq, Eq, Structural)]
pub enum FrameMismatch {
    /// The world has `world` bodies where the frame has `timeline`.
    BodyCount { world: usize, timeline: usize },
    /// In key order, the world has body `world` where the frame has `timeline`.
    Key { world: u64, timeline: u64 },
}

/// Position by position, in key order, whether the world's key differs from the frame's.
pub open spec fn key_mismatches<P>(world_keys: Seq<u64>, frame: Seq<(u64, P)>) -> Seq<bool> {
    Seq::new(
        frame.len(),
        |i: int| world_keys[stable_order(world_keys)[i] as int] != frame[i].0,
    )
}

/// The poses that a frame gives the world: the world's rows in stable key
/// order are paired, position by position, with the frame's rows; every
/// pair must carry one key. `(row, pose)` gives `pose` to the world's row.
pub open spec fn frame_match_spec<P>(world_keys: Seq<u64>, frame: Seq<(u64, P)>) -> Result<
    Seq<(usize, P)>,
    FrameMismatch,
> {
    let o = stable_order(world_keys);
    if world_keys.len() != frame.len() {
        Err(FrameMismatch::BodyCount { world: world_keys.len() as usize, timeline: frame.len() as usize })
    } else {
        match key_mismatches(world_keys, frame).index_of_first(true) {
            Some(i) => Err(FrameMismatch::Key { world: world_keys[o[i] as int], timeline: frame[i].0 }),
            None => Ok(Seq::new(frame.len(), |i: int| (o[i], frame[i].1))),
        }
    }
}

/// Lays a frame on the world whose bodies carry `world_keys`, listed in the
/// world's own order.
pub fn match_frame<P: Copy>(world_keys: &Vec<u64>, frame: &Vec<(u64, P)>) -> (r: Result<
    Vec<(usize, P)>,
    FrameMismatch,
>)
    ensures
        match (r, frame_match_spec(world_keys@, frame@)) {
            (Ok(v), Ok(s)) => v@ == s,
            (Err(e), Err(f)) => e == f,
            _ => false,
        },
{
    if world_keys.len() != frame.len() {
        return Err(FrameMismatch::BodyCount { world: world_keys.len(), timeline: frame.len() });
    }
    let order = stable_order_by_key(world_keys);
    let ghost mism = key_mismatches(world_keys@, frame@);
    let n = frame.len();
    let mut out: Vec<(usize, P)> = Vec::new();
    let mut i: usize = 0;
    while i < n
        invariant
            n == frame.len(),
            n == world_keys.len(),
            i <= n,
            order@ == stable_order(world_keys@),
            is_stable_order(world_keys@, order@),
            mism == key_mismatches(world_keys@, frame@),
            forall|q: int| 0 <= q < i ==> !(#[trigger] mism[q]),
            out@ =~= Seq::new(i as nat, |q: int| (order@[q], frame@[q].1)),
        decreases n - i,
    {
        let w = order[i];
        if world_keys[w] != frame[i].0 {
            proof {
                assert(mism[i as int]);
                mism.index_of_first_ensures(true);
                let f = mism.index_of_first(true);
                assert(f is Some);
                let k = f->0;
                if k < i {
                    assert(!mism[k]);
                }
                if k > i {
                    assert(mism[i as int] != true);
                }
                assert(k == i);
            }
            return Err(FrameMismatch::Key { world: world_keys[w], timeline: frame[i].0 });
        }
        out.push((w, frame[i].1));
        i += 1;
    }
    proof {
        mism.index_of_first_ensures(true);
        if mism.index_of_first(true) is Some {
            let k = mism.index_of_first(true)->0;
            assert(!mism[k]);
        }
    }
    Ok(out)
}

/// Playback in progress.
pub struct PlayState<P> {
    timeline: Timeline<P>,
    cursor: usize,
    next_event: usize,
}

pub struct PlayStateView<P> {
    pub timeline: TimelineView<P>,
    /// The next frame to play.
    pub cursor: nat,
    /// The first event not sent yet.
    pub next_event: nat,
}

impl<P> View for PlayState<P> {
    type V = PlayStateView<P>;

    closed spec fn view(&self) -> PlayStateView<P> {
        PlayStateView {
            timeline: self.timeline@,
            cursor: self.cursor as nat,
            next_event: self.next_event as nat,
        }
    }
}

impl<P> PlayStateView<P> {
    pub open spec fn inv(self) -> bool {
        &&& self.cursor <= self.timeline.frames.len()
        &&& self.next_event <= self.timeline.events.len()
    }

    /// The events sent so far are exactly those of the frames played so far.
    pub open spec fn events_in_step(self) -> bool {
        &&& forall|e: int| 0 <= e < self.next_event ==> (#[trigger] self.timeline.events[e]).0 < self.cursor
        &&& forall|e: int|
            self.next_event <= e < self.timeline.events.len() ==> (#[trigger] self.timeline.events[e]).0
                >= self.cursor
    }
}

/// The index of the first event, from `from` on, tied to a frame after
/// `cursor`: the events before it are the ones a step at `cursor` sends.
pub open spec fn events_through(events: Seq<(u32, Seq<char>)>, from: nat, cursor: nat) -> nat
    decreases events.len() - from,
{
    if from >= events.len() || events[from as int].0 > cursor {
        from
    } else {
        events_through(events, from + 1, cursor)
    }
}

/// Playback at its start: the first frame next, no event sent.
pub open spec fn play_start<P>(timeline: TimelineView<P>) -> PlayStateView<P> {
    PlayStateView { timeline, cursor: 0, next_event: 0 }
}

impl<P> PlayStateView<P> {
    /// The state after one step of playback; a spent timeline stays as it is.
    pub open spec fn step(self) -> PlayStateView<P> {
        if self.cursor >= self.timeline.frames.len() {
            self
        } else {
            PlayStateView {
                timeline: self.timeline,
                cursor: self.cursor + 1,
                next_event: events_through(self.timeline.events, self.next_event, self.cursor),
            }
        }
    }

    /// The state after `n` steps of playback.
    pub open spec fn played_after(self, n: nat) -> PlayStateView<P>
        decreases n,
    {
        if n == 0 {
            self
        } else {
            self.played_after((n - 1) as nat).step()
        }
    }
}

/// The events a step sends are those from `from` up to the first one of a
/// later frame.
proof fn lemma_events_through(events: Seq<(u32, Seq<char>)>, from: nat, cursor: nat)
    requires
        from <= events.len(),
    ensures
        from <= events_through(events, from, cursor) <= events.len(),
        forall|e: int|
            from <= e < events_through(events, from, cursor) ==> (#[trigger] events[e]).0 <= cursor,
        events_through(events, from, cursor) == events.len() || events[events_through(
            events,
            from,
            cursor,
        ) as int].0 > cursor,
    decreases events.len() - from,
{
    if from < events.len() && events[from as int].0 <= cursor {
        lemma_events_through(events, from + 1, cursor);
    }
}

/// Conversely, any end with those properties is the one `events_through` gives.
proof fn lemma_events_through_unique(
    events: Seq<(u32, Seq<char>)>,
    from: nat,
    to: nat,
    cursor: nat,
)
    requires
        from <= to <= events.len(),
        forall|e: int| from <= e < to ==> (#[trigger] events[e]).0 <= cursor,
        to == events.len() || events[to as int].0 > cursor,
    ensures
        events_through(events, from, cursor) == to,
    decreases to - from,
{
    if from < to {
        assert(events[from as int].0 <= cursor);
        lemma_events_through_unique(events, from + 1, to, cursor);
    }
}

/// One step from a state whose sent events are exactly those of the frames
/// already played sends exactly the events of the frame it plays.
proof fn lemma_step_sends_its_frame<P>(v: PlayStateView<P>)
    requires
        v.inv(),
        v.events_in_step(),
        v.cursor < v.timeline.frames.len(),
        forall|a: int, b: int|
            0 <= a < b < v.timeline.events.len() ==> (#[trigger] v.timeline.events[a]).0
                <= (#[trigger] v.timeline.events[b]).0,
    ensures
        v.step().inv(),
        v.step().events_in_step(),
        v.step().cursor == v.cursor + 1,
        v.next_event <= v.step().next_event,
        forall|e: int|
            0 <= e < v.timeline.events.len() ==> (v.next_event <= e < v.step().next_event
                <==> (#[trigger] v.timeline.events[e]).0 == v.cursor),
{
    let ev = v.timeline.events;
    let from = v.next_event;
    let c = v.cursor;
    lemma_events_through(ev, from, c);
    let to = events_through(ev, from, c);
    assert(v.step().next_event == to);
    assert forall|e: int| 0 <= e < to implies (#[trigger] ev[e]).0 < c + 1 by {
        if e < from {
            assert(ev[e].0 < c);
        }
    }
    assert forall|e: int| to <= e < ev.len() implies (#[trigger] ev[e]).0 >= c + 1 by {
        if e > to {
            assert(ev[to as int].0 <= ev[e].0);
        }
    }
    assert forall|e: int| 0 <= e < ev.len() implies (from <= e < to <==> (#[trigger] ev[e]).0
        == c) by {
        if e < from {
            assert(ev[e].0 < c);
        } else if e >= to {
            assert(ev[e].0 >= c + 1);
        } else {
            assert(ev[e].0 >= c);
        }
    }
}

/// Playback from its start, for `n` steps up to the end of the timeline:
/// the cursor counts the steps, and the events sent are exactly those of
/// the frames played.
proof fn lemma_played_after<P>(timeline: TimelineView<P>, n: nat)
    requires
        n <= timeline.frames.len(),
        forall|a: int, b: int|
            0 <= a < b < timeline.events.len() ==> (#[trigger] timeline.events[a]).0
                <= (#[trigger] timeline.events[b]).0,
    ensures
        play_start(timeline).played_after(n).timeline == timeline,
        play_start(timeline).played_after(n).cursor == n,
        play_start(timeline).played_after(n).inv(),
        play_start(timeline).played_after(n).events_in_step(),
    decreases n,
{
    if n > 0 {
        lemma_played_after(timeline, (n - 1) as nat);
        lemma_step_sends_its_frame(play_start(timeline).played_after((n - 1) as nat));
    }
}

/// Once the timeline is spent, further steps change nothing.
proof fn lemma_played_after_end<P>(timeline: TimelineView<P>, n: nat)
    requires
        n >= timeline.frames.len(),
        forall|a: int, b: int|
            0 <= a < b < timeline.events.len() ==> (#[trigger] timeline.events[a]).0
                <= (#[trigger] timeline.events[b]).0,
    ensures
        play_start(timeline).played_after(n) == play_start(timeline).played_after(
            timeline.frames.len(),
        ),
    decreases n,
{
    if n > timeline.frames.len() {
        lemma_played_after_end(timeline, (n - 1) as nat);
        lemma_played_after(timeline, timeline.frames.len());
    }
}

/// What a run of playback does with the game's events: played from its
/// start over a timeline whose events come in frame order, the step that
/// plays frame `c` sends exactly the events tied to frame `c`, a contiguous
/// stretch of the stored events and so in stored order. So every event of a
/// frame of the timeline goes out once, in its own frame, and never again;
/// after the last frame further steps change nothing and send nothing.
pub proof fn law_play_sends_each_event_once<P>(timeline: TimelineView<P>)
    requires
        forall|a: int, b: int|
            0 <= a < b < timeline.events.len() ==> (#[trigger] timeline.events[a]).0
                <= (#[trigger] timeline.events[b]).0,
    ensures
        forall|c: nat|
            c <= timeline.frames.len() ==> (#[trigger] play_start(timeline).played_after(c)).cursor
                == c && play_start(timeline).played_after(c).events_in_step(),
        forall|c: nat, e: int|
            #![trigger play_start(timeline).played_after(c), timeline.events[e]]
            c < timeline.frames.len() && 0 <= e < timeline.events.len() ==> (play_start(
                timeline,
            ).played_after(c).next_event <= e < play_start(timeline).played_after(c).step().next_event
                <==> timeline.events[e].0 == c),
        forall|c: nat|
            c >= timeline.frames.len() ==> #[trigger] play_start(timeline).played_after(c)
                == play_start(timeline).played_after(timeline.frames.len()),
        play_start(timeline).played_after(timeline.frames.len()).step() == play_start(
            timeline,
        ).played_after(timeline.frames.len()),
{
    let n = timeline.frames.len();
    assert forall|c: nat| c <= n implies (#[trigger] play_start(timeline).played_after(c)).cursor
        == c && play_start(timeline).played_after(c).events_in_step() by {
        lemma_played_after(timeline, c);
    }
    assert forall|c: nat, e: int|
        #![trigger play_start(timeline).played_after(c), timeline.events[e]]
        c < n && 0 <= e < timeline.events.len() implies (play_start(timeline).played_after(
        c,
    ).next_event <= e < play_start(timeline).played_after(c).step().next_event
        <==> timeline.events[e].0 == c) by {
        lemma_played_after(timeline, c);
        lemma_step_sends_its_frame(play_start(timeline).played_after(c));
    }
    assert forall|c: nat| c >= n implies #[trigger] play_start(timeline).played_after(c)
        == play_start(timeline).played_after(n) by {
        lemma_played_after_end(timeline, c);
    }
    lemma_played_after(timeline, n);
}

/// What one fixed step of playback does.
pub struct PlayedFrame<P> {
    /// The frame played.
    pub frame: usize,
    /// The payloads of the game events to send again, in order.
    pub events: Vec<String>,
    /// The pose of each world row, or why the world does not fit the frame.
    pub poses: Result<Vec<(usize, P)>, FrameMismatch>,
}

impl<P: Copy> PlayState<P> {
    pub fn new(timeline: Timeline<P>) -> (r: Self)
        ensures
            r@.timeline == timeline@,
            r@.cursor == 0,
            r@.next_event == 0,
            r@.inv(),
            r@.events_in_step(),
    {
        PlayState { timeline, cursor: 0, next_event: 0 }
    }

    pub fn timeline(&self) -> (r: &Timeline<P>)
        ensures
            r@ == self@.timeline,
    {
        &self.timeline
    }

    /// Plays the next frame: sends again the events tied to frames up to
    /// it (the events come in frame order, so the first event of a later
    /// frame stops the sending), then lays the frame on the world. Once the
    /// timeline is spent nothing changes: the world freezes in its last pose.
    pub fn play_frame(&mut self, world_keys: &Vec<u64>) -> (r: Option<PlayedFrame<P>>)
        requires
            old(self)@.inv(),
        ensures
            final(self)@.inv(),
            final(self)@.timeline == old(self)@.timeline,
            final(self)@ == old(self)@.step(),
            old(self)@.cursor >= old(self)@.timeline.frames.len() ==> r is None && final(self)@
                == old(self)@,
            old(self)@.cursor < old(self)@.timeline.frames.len() ==> (r matches Some(played) && {
                let events = old(self)@.timeline.events;
                let cursor = old(self)@.cursor;
                let from = old(self)@.next_event;
                let to = final(self)@.next_event;
                &&& played.frame == cursor
                &&& final(self)@.cursor == cursor + 1
                &&& from <= to
                &&& forall|e: int| from <= e < to ==> (#[trigger] events[e]).0 <= cursor
                &&& to == events.len() || events[to as int].0 > cursor
                &&& played.events@.map_values(|p: String| p@) == events.subrange(
                    from as int,
                    to as int,
                ).map_values(|e: (u32, Seq<char>)| e.1)
                &&& match (played.poses, frame_match_spec(
                    world_keys@,
                    old(self)@.timeline.frames[cursor as int],
                )) {
                    (Ok(v), Ok(s)) => v@ == s,
                    (Err(e), Err(f)) => e == f,
                    _ => false,
                }
                // Over a well-formed timeline the events sent are exactly
                // those recorded for the frame played.
                &&& old(self)@.timeline.is_well_formed() && old(self)@.events_in_step() ==> {
                    &&& final(self)@.events_in_step()
                    &&& forall|e: int|
                        0 <= e < events.len() ==> ((#[trigger] events[e]).0 == cursor <==> from <= e
                            < to)
                }
            }),
    {
        let cursor = self.cursor;
        if cursor >= self.timeline.frames.len() {
            return None;
        }
        self.cursor = cursor + 1;
        let ghost ev = self.timeline@.events;
        let ghost from = self.next_event as int;
        let mut sent: Vec<String> = Vec::new();
        while self.next_event < self.timeline.events.len()
            && self.timeline.events[self.next_event].0 as usize <= cursor
            invariant
                self.timeline@ == old(self)@.timeline,
                ev == self.timeline@.events,
                self.cursor == cursor + 1,
                cursor < self.timeline.frames.len(),
                0 <= from <= self.next_event <= self.timeline.events.len(),
                forall|e: int| from <= e < self.next_event ==> (#[trigger] ev[e]).0 <= cursor,
                sent@.map_values(|p: String| p@) =~= ev.subrange(from, self.next_event as int).map_values(
                    |e: (u32, Seq<char>)| e.1,
                ),
            decreases self.timeline.events.len() - self.next_event,
        {
            let payload = self.timeline.events[self.next_event].1.clone();
            let ghost prev = sent@;
            sent.push(payload);
            proof {
                assert(ev.len() == self.timeline.events@.len());
                assert(ev[self.next_event as int] == (
                    self.timeline.events@[self.next_event as int].0,
                    self.timeline.events@[self.next_event as int].1@,
                ));
                assert(sent@.map_values(|p: String| p@) =~= prev.map_values(|p: String| p@).push(
                    payload@,
                ));
                assert(ev.subrange(from, self.next_event + 1).map_values(|e: (u32, Seq<char>)| e.1)
                    =~= ev.subrange(from, self.next_event as int).map_values(
                    |e: (u32, Seq<char>)| e.1,
                ).push(ev[self.next_event as int].1));
            }
            self.next_event = self.next_event + 1;
        }
        let poses = match_frame(world_keys, &self.timeline.frames[cursor]);
        proof {
            let tl = self.timeline@;
            let to = self.next_event as int;
            if to < ev.len() {
                assert(ev[to].0 == self.timeline.events@[to].0);
            }
            lemma_events_through_unique(ev, from as nat, to as nat, cursor as nat);
            assert(tl.frames[cursor as int] == self.timeline.frames@[cursor as int]@);
            if to < ev.len() {
                assert(ev[to].0 == self.timeline.events@[to].0);
            }
            if tl.is_well_formed() && old(self)@.events_in_step() {
                assert forall|e: int| 0 <= e < ev.len() implies ((#[trigger] ev[e]).0 == cursor
                    <==> from <= e < to) by {
                    if e < from {
                        assert(ev[e].0 < cursor);
                    } else if e >= to {
                        assert(ev[e].0 >= cursor);
                        if e > to {
                            assert(ev[to].0 <= ev[e].0);
                        }
                    } else {
                        assert(ev[e].0 >= cursor);
                    }
                }
                assert forall|e: int| 0 <= e < to implies (#[trigger] ev[e]).0 < cursor + 1 by {
                    if e < from {
                        assert(ev[e].0 < cursor);
                    }
                }
                assert forall|e: int| to <= e < ev.len() implies (#[trigger] ev[e]).0 >= cursor + 1 by {
                    if e > to {
                        assert(ev[to].0 <= ev[e].0);
                    }
                }
            }
        }
        Some(PlayedFrame { frame: cursor, events: sent, poses })
    }
}


/// The world rows that a list of `(row, pose)` gives a pose to.
pub open spec fn assigned_rows<P>(poses: Seq<(usize, P)>) -> Seq<usize> {
    poses.map_values(|p: (usize, P)| p.0)
}

/// What playback gives back of what capture took, the promise of the
/// timeline key: when the world that plays holds the same bodies as the
/// world that captured (each key once, the same keys, listed in any order),
/// the frame fits the world, and every body of the world receives, exactly
/// once, the pose captured for its own key.
pub proof fn law_play_reproduces_capture<P>(captured: Seq<(u64, P)>, world_keys: Seq<u64>)
    requires
        captured.len() <= usize::MAX,
        all_distinct(row_keys(captured)),
        world_keys.no_duplicates(),
        world_keys.to_set() == row_keys(captured).to_set(),
    ensures
        frame_match_spec(world_keys, sorted_rows(captured)) matches Ok(poses) && {
            &&& poses.len() == world_keys.len()
            &&& forall|i: int|
                0 <= i < poses.len() ==> row_keys(captured).contains(
                    world_keys[(#[trigger] poses[i]).0 as int],
                )
            &&& forall|i: int, k: int|
                0 <= i < poses.len() && 0 <= k < captured.len() && (#[trigger] captured[k]).0
                    == world_keys[(#[trigger] poses[i]).0 as int] ==> captured[k].1 == poses[i].1
            &&& forall|w: usize|
                (w as int) < world_keys.len() ==> #[trigger] assigned_rows(poses).contains(w)
            &&& forall|i: int, j: int|
                0 <= i < j < poses.len() ==> (#[trigger] poses[i]).0 != (#[trigger] poses[j]).0
        },
{
    let ck = row_keys(captured);
    let frame = sorted_rows(captured);
    crate::key_order::lemma_sorted_distinct_ascending(captured);
    crate::key_order::lemma_stable_order_exists(ck);
    assert(ck.no_duplicates());
    crate::key_order::lemma_same_keys_same_order(world_keys, ck);
    let o = stable_order(world_keys);
    let s = Seq::new(world_keys.len(), |i: int| world_keys[o[i] as int]);
    let t = row_keys(frame);
    assert forall|i: int| 0 <= i < s.len() implies s[i] == t[i] by {
        assert(t[i] == ck[stable_order(ck)[i] as int]);
    }
    let mism = key_mismatches(world_keys, frame);
    assert forall|i: int| 0 <= i < mism.len() implies !(#[trigger] mism[i]) by {
        assert(s[i] == t[i]);
    }
    mism.index_of_first_ensures(true);
    if mism.index_of_first(true) is Some {
        let k = mism.index_of_first(true)->0;
        assert(!mism[k]);
    }
    let poses = Seq::new(frame.len(), |i: int| (o[i], frame[i].1));
    assert(frame_match_spec(world_keys, frame) == Ok::<Seq<(usize, P)>, FrameMismatch>(poses));
    assert forall|w: usize| (w as int) < world_keys.len() implies #[trigger] assigned_rows(poses).contains(w) by {
        let wi: int = w as int;
        assert(o.contains(wi as usize));
        let i = choose|i: int| 0 <= i < o.len() && o[i] == w;
        assert(assigned_rows(poses)[i] == w);
    }
    assert forall|i: int, j: int| 0 <= i < j < poses.len() implies (#[trigger] poses[i]).0 != (
    #[trigger] poses[j]).0 by {
        assert(key_before(world_keys, o[i] as int, o[j] as int));
    }
    assert forall|i: int, k: int|
        0 <= i < poses.len() && 0 <= k < captured.len() && (#[trigger] captured[k]).0
            == world_keys[(#[trigger] poses[i]).0 as int] implies captured[k].1 == poses[i].1 by {
        let co = stable_order(ck);
        assert(s[i] == t[i]);
        assert(frame[i] == captured[co[i] as int]);
        assert(ck[k] == ck[co[i] as int]);
        if k != co[i] as int {
            if k < co[i] as int {
                assert(ck[k] != ck[co[i] as int]);
            } else {
                assert(ck[co[i] as int] != ck[k]);
            }
        }
    }
    assert forall|i: int| 0 <= i < poses.len() implies row_keys(captured).contains(
        world_keys[(#[trigger] poses[i]).0 as int],
    ) by {
        let so = stable_order(ck);
        assert(ck[so[i] as int] == world_keys[poses[i].0 as int]);
    }
}

} // verus!
